//! Which computation may run next: the model of refreshing and flushing.

use crate::error::ReactiveError;
use crate::graph::lemma_acyclic_subtable;
use crate::handle::{FlushStep, Refresh};
use crate::model::{Edge, Freshness, Model, Node, NodeKind};
use crate::seqs::{lemma_filter_distinct, lemma_filter_holds};
use vstd::prelude::*;

verus! {

/// The test for an id other than `n`.
pub open spec fn other_than(n: usize) -> spec_fn(usize) -> bool {
    |x: usize| x != n
}

/// The test for a subscription that is not one of `n`.
pub open spec fn not_read_by(n: usize) -> spec_fn(Edge) -> bool {
    |e: Edge| e.subscriber != n
}

impl<T> Model<T> {
    /// The first dependency of `n` that is not clean, looking at the
    /// subscription table from row `k` on.
    pub open spec fn stale_source_from(self, n: usize, k: int) -> Option<usize>
        decreases self.edges.len() - k,
    {
        if k < 0 || k >= self.edges.len() {
            None
        } else if self.edges[k].subscriber == n && !self.is_clean(self.edges[k].source) {
            Some(self.edges[k].source)
        } else {
            self.stale_source_from(n, k + 1)
        }
    }

    /// The first dependency of `n` that is not clean.
    pub open spec fn first_stale_source(self, n: usize) -> Option<usize> {
        self.stale_source_from(n, 0)
    }

    /// The evaluation of `n` begins: it forgets what it read, leaves the
    /// queue and becomes the observer.
    pub open spec fn started(self, n: usize) -> Self {
        Model {
            edges: self.edges.filter(not_read_by(n)),
            pending: self.pending.filter(other_than(n)),
            running: self.running.push(n),
            ..self
        }
    }

    /// `n` is found up to date without running it.
    pub open spec fn settled(self, n: usize) -> Self {
        Model {
            nodes: self.nodes.update(n as int, Node { state: Freshness::Clean, ..self.nodes[n as int] }),
            pending: self.pending.filter(other_than(n)),
            ..self
        }
    }

    /// What bringing `n` up to date asks for.
    pub open spec fn refresh_result(self, n: usize) -> Result<Refresh, ReactiveError> {
        if !self.live(n) {
            Err(ReactiveError::UseAfterDispose)
        } else if self.is_running(n) {
            Err(ReactiveError::CyclicDependency)
        } else if self.is_clean(n) {
            Ok(Refresh::Fresh)
        } else {
            match self.first_stale_source(n) {
                Some(s) => Ok(Refresh::Blocked(s)),
                None => if self.state_of(n) == Freshness::Stale {
                    Ok(Refresh::Fresh)
                } else {
                    Ok(Refresh::Run(n))
                },
            }
        }
    }

    /// The state after one attempt to bring `n` up to date.
    pub open spec fn refreshed(self, n: usize) -> Self {
        match self.refresh_result(n) {
            Ok(Refresh::Run(_)) => self.started(n),
            Ok(Refresh::Fresh) => if self.is_clean(n) {
                self
            } else {
                self.settled(n)
            },
            _ => self,
        }
    }

    /// The first queued node, from position `k` on, that is a memo (or, for
    /// `memo == false`, is none) and has only clean dependencies.
    pub open spec fn ready_from(self, memo: bool, k: int) -> Option<usize>
        decreases self.pending.len() - k,
    {
        if k < 0 || k >= self.pending.len() {
            None
        } else if (self.kind_of(self.pending[k]) == NodeKind::Memo) == memo && self.sources_clean(
            self.pending[k],
        ) {
            Some(self.pending[k])
        } else {
            self.ready_from(memo, k + 1)
        }
    }

    /// The node that the scheduler takes next: the oldest ready memo, or,
    /// when no memo is ready, the oldest ready effect.
    pub open spec fn next_ready(self) -> Option<usize> {
        match self.ready_from(true, 0) {
            Some(x) => Some(x),
            None => self.ready_from(false, 0),
        }
    }

    /// What one step of a flush yields.
    pub open spec fn flush_result(self) -> Result<FlushStep, ReactiveError> {
        if self.pending.len() == 0 {
            Ok(FlushStep::Done)
        } else {
            match self.next_ready() {
                None => Err(ReactiveError::CyclicDependency),
                Some(x) => if self.state_of(x) == Freshness::Stale {
                    Ok(FlushStep::Settled(x))
                } else {
                    Ok(FlushStep::Run(x))
                },
            }
        }
    }

    /// The state after one step of a flush.
    pub open spec fn flushed(self) -> Self {
        match self.flush_result() {
            Ok(FlushStep::Settled(x)) => self.settled(x),
            Ok(FlushStep::Run(x)) => self.started(x),
            _ => self,
        }
    }

    /// One more batch is open.
    pub open spec fn batch_opened(self) -> Self {
        Model { batch: (self.batch + 1) as usize, ..self }
    }

    /// The innermost batch is closed.
    pub open spec fn batch_closed(self) -> Self {
        Model {
            batch: if self.batch > 0 {
                (self.batch - 1) as usize
            } else {
                0
            },
            ..self
        }
    }

    /// Closing the innermost batch leaves queued work that nothing else will
    /// drain.
    pub open spec fn batch_flush_due(self) -> bool {
        self.batch == 1 && self.pending.len() > 0 && self.running.len() == 0
    }
}

/// What the search for a stale dependency finds.
pub proof fn lemma_stale_source<T>(m: Model<T>, n: usize, k: int)
    requires
        0 <= k <= m.edges.len(),
    ensures
        match m.stale_source_from(n, k) {
            Some(s) => m.depends(n, s) && !m.is_clean(s),
            None => forall|i: int|
                k <= i < m.edges.len() && (#[trigger] m.edges[i]).subscriber == n ==> m.is_clean(
                    m.edges[i].source,
                ),
        },
    decreases m.edges.len() - k,
{
    if k < m.edges.len() {
        if m.edges[k].subscriber == n && !m.is_clean(m.edges[k].source) {
            assert(m.edges[k] == Edge { source: m.edges[k].source, subscriber: n });
        } else {
            lemma_stale_source(m, n, k + 1);
        }
    }
}

/// A node is ready exactly when the search for a stale dependency finds
/// none.
pub proof fn lemma_ready_iff<T>(m: Model<T>, n: usize)
    ensures
        m.first_stale_source(n) is None <==> m.sources_clean(n),
{
    lemma_stale_source(m, n, 0);
    if m.first_stale_source(n) is Some {
        let s = m.first_stale_source(n)->0;
        let i = choose|i: int| 0 <= i < m.edges.len() && m.edges[i] == Edge { source: s, subscriber: n };
        assert(m.edges[i].subscriber == n);
    }
}

/// What the search of the queue finds.
pub proof fn lemma_ready_from<T>(m: Model<T>, memo: bool, k: int)
    requires
        0 <= k <= m.pending.len(),
    ensures
        match m.ready_from(memo, k) {
            Some(x) => {
                &&& m.pending.contains(x)
                &&& (m.kind_of(x) == NodeKind::Memo) == memo
                &&& m.sources_clean(x)
            },
            None => forall|i: int|
                k <= i < m.pending.len() ==> !((m.kind_of(#[trigger] m.pending[i]) == NodeKind::Memo) == memo
                    && m.sources_clean(m.pending[i])),
        },
    decreases m.pending.len() - k,
{
    if k < m.pending.len() {
        if (m.kind_of(m.pending[k]) == NodeKind::Memo) == memo && m.sources_clean(m.pending[k]) {
        } else {
            lemma_ready_from(m, memo, k + 1);
        }
    }
}

/// Beginning the evaluation of a dirty node keeps the invariant.
pub proof fn lemma_started_inv<T>(m: Model<T>, n: usize)
    requires
        m.inv(),
        m.live(n),
        !m.is_running(n),
        m.state_of(n) == Freshness::Dirty,
    ensures
        m.started(n).inv(),
{
    let a = m.started(n);
    lemma_filter_holds(m.edges, not_read_by(n));
    lemma_filter_holds(m.pending, other_than(n));
    lemma_filter_distinct(m.pending, other_than(n));
    assert forall|x: usize| a.is_running(x) <==> m.is_running(x) || x == n by {
        if a.is_running(x) {
            let i = choose|i: int| 0 <= i < a.running.len() && a.running[i] == x;
            if i < m.running.len() {
                assert(m.running[i] == x);
            }
        }
        if m.is_running(x) {
            let i = choose|i: int| 0 <= i < m.running.len() && m.running[i] == x;
            assert(a.running[i] == x);
        }
        assert(a.running[m.running.len() as int] == n);
    }
    assert forall|i: int| 0 <= i < a.edges.len() implies m.edges.contains(#[trigger] a.edges[i])
        && a.edges[i].subscriber != n by {
        assert(a.edges.contains(a.edges[i]));
    }
    lemma_acyclic_subtable(m.edges, a.edges);
    assert(a.edges_ok()) by {
        assert forall|i: int| 0 <= i < a.edges.len() implies ({
            let e = #[trigger] a.edges[i];
            &&& a.live(e.source)
            &&& a.live(e.subscriber)
            &&& a.kind_of(e.source) != NodeKind::Effect
            &&& a.kind_of(e.subscriber) != NodeKind::Signal
        }) by {
            let e = a.edges[i];
            let j = choose|j: int| 0 <= j < m.edges.len() && m.edges[j] == e;
            assert(m.live(m.edges[j].source));
        }
    }
    assert(a.settled_ok()) by {
        assert forall|i: int| 0 <= i < a.edges.len() implies ({
            let e = #[trigger] a.edges[i];
            a.is_clean(e.subscriber) || a.is_running(e.subscriber) ==> a.is_clean(e.source)
        }) by {
            let e = a.edges[i];
            let j = choose|j: int| 0 <= j < m.edges.len() && m.edges[j] == e;
            assert(m.live(m.edges[j].source));
        }
    }
    assert(a.running_ok()) by {
        assert forall|i: int| 0 <= i < a.running.len() implies ({
            let r = #[trigger] a.running[i];
            &&& r < a.nodes.len()
            &&& a.kind_of(r) != NodeKind::Signal
            &&& (a.live(r) ==> a.state_of(r) == Freshness::Dirty)
        }) by {
            if i < m.running.len() {
                assert(a.running[i] == m.running[i]);
            }
        }
        assert forall|i: int, j: int| 0 <= i < a.running.len() && 0 <= j < a.running.len() && i != j implies a.running[i]
            != a.running[j] by {
            if i < m.running.len() {
                assert(m.running.contains(m.running[i]));
            }
            if j < m.running.len() {
                assert(m.running.contains(m.running[j]));
            }
        }
    }
    assert(a.pending_ok()) by {
        assert forall|i: int| 0 <= i < a.pending.len() implies (#[trigger] a.pending[i]) < a.nodes.len() by {
            assert(a.pending.contains(a.pending[i]));
            let x = a.pending[i];
            let j = choose|j: int| 0 <= j < m.pending.len() && m.pending[j] == x;
        }
        assert forall|x: usize| x < a.nodes.len() implies (#[trigger] a.pending.contains(x) <==> a.live(x)
            && !a.is_clean(x) && !a.is_running(x)) by {
            assert(m.pending.contains(x) <==> m.live(x) && !m.is_clean(x) && !m.is_running(x));
        }
    }
}

/// Settling a stale node whose dependencies are clean keeps the invariant.
pub proof fn lemma_settled_inv<T>(m: Model<T>, n: usize)
    requires
        m.inv(),
        m.live(n),
        !m.is_running(n),
        m.state_of(n) == Freshness::Stale,
        m.sources_clean(n),
    ensures
        m.settled(n).inv(),
{
    let a = m.settled(n);
    lemma_filter_holds(m.pending, other_than(n));
    lemma_filter_distinct(m.pending, other_than(n));
    assert(a.settled_ok()) by {
        assert forall|i: int| 0 <= i < a.edges.len() implies ({
            let e = #[trigger] a.edges[i];
            a.is_clean(e.subscriber) || a.is_running(e.subscriber) ==> a.is_clean(e.source)
        }) by {
            let e = m.edges[i];
            assert(m.live(e.source) && m.live(e.subscriber));
        }
    }
    assert(a.running_ok()) by {
        assert forall|i: int| 0 <= i < a.running.len() implies ({
            let r = #[trigger] a.running[i];
            &&& r < a.nodes.len()
            &&& a.kind_of(r) != NodeKind::Signal
            &&& (a.live(r) ==> a.state_of(r) == Freshness::Dirty)
        }) by {
            assert(m.is_running(m.running[i]));
        }
    }
    assert(a.pending_ok()) by {
        assert forall|i: int| 0 <= i < a.pending.len() implies (#[trigger] a.pending[i]) < a.nodes.len() by {
            assert(a.pending.contains(a.pending[i]));
            let x = a.pending[i];
            let j = choose|j: int| 0 <= j < m.pending.len() && m.pending[j] == x;
        }
        assert forall|x: usize| x < a.nodes.len() implies (#[trigger] a.pending.contains(x) <==> a.live(x)
            && !a.is_clean(x) && !a.is_running(x)) by {
            assert(m.pending.contains(x) <==> m.live(x) && !m.is_clean(x) && !m.is_running(x));
        }
    }
}

/// The number of open batches does not matter to the invariant.
pub proof fn lemma_batch_inv<T>(m: Model<T>, batch: usize)
    requires
        m.inv(),
    ensures
        (Model { batch, ..m }).inv(),
{
    let a = Model { batch, ..m };
    assert forall|n: usize| n < a.nodes.len() implies (#[trigger] a.pending.contains(n) <==> a.live(n)
        && !a.is_clean(n) && !a.is_running(n)) by {
        assert(m.pending.contains(n) <==> m.live(n) && !m.is_clean(n) && !m.is_running(n));
    }
}

} // verus!
