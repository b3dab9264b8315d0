//! What a write does to the graph: the value is stored, the direct
//! subscribers become dirty and everything further downstream becomes stale.

use crate::error::ReactiveError;
use crate::graph::{lemma_linked_reaches, lemma_reaches_last_hop, lemma_reaches_step, linked, reaches};
use crate::model::{Edge, Freshness, Model, Node, NodeKind};
use crate::seqs::{lemma_filter_distinct, lemma_filter_holds, upto};
use vstd::prelude::*;
use vstd::seq_lib::lemma_no_dup_in_concat;

verus! {

/// The rows `nodes` with every subscriber of `src` made dirty.
pub open spec fn dirtied<T>(nodes: Seq<Node<T>>, edges: Seq<Edge>, src: usize) -> Seq<Node<T>> {
    Seq::new(
        nodes.len(),
        |i: int|
            if linked(edges, src, i as usize) {
                Node { state: Freshness::Dirty, ..nodes[i] }
            } else {
                nodes[i]
            },
    )
}

impl<T> Model<T> {
    /// `n` is downstream of `a`: it depends on `a`, directly or not.
    pub open spec fn touches(self, a: usize, n: usize) -> bool {
        n != a && reaches(self.edges, a, n)
    }

    /// A computation that is being evaluated is downstream of `a`.
    pub open spec fn feeds_running(self, a: usize) -> bool {
        exists|i: int| 0 <= i < self.running.len() && self.touches(a, #[trigger] self.running[i])
    }

    /// Why a write to `a` is refused, if it is.
    pub open spec fn write_error(self, a: usize) -> Option<ReactiveError> {
        if !self.live_signal(a) {
            Some(ReactiveError::UseAfterDispose)
        } else if self.feeds_running(a) {
            Some(ReactiveError::CyclicDependency)
        } else {
            None
        }
    }

    /// Row `i` after a write to `a`, but for the stored value.
    pub open spec fn invalidated_row(self, a: usize, i: int) -> Node<T> {
        let n = self.nodes[i];
        if self.depends(i as usize, a) {
            Node { state: Freshness::Dirty, ..n }
        } else if n.state == Freshness::Clean && self.touches(a, i as usize) {
            Node { state: Freshness::Stale, ..n }
        } else {
            n
        }
    }

    /// The test for a clean node downstream of `a`.
    pub open spec fn clean_downstream(self, a: usize) -> spec_fn(usize) -> bool {
        |n: usize| self.is_clean(n) && self.touches(a, n)
    }

    /// The clean nodes downstream of `a`, by increasing id.
    pub open spec fn newly_pending(self, a: usize) -> Seq<usize> {
        upto(self.nodes.len()).filter(self.clean_downstream(a))
    }

    /// Everything downstream of `a` is invalidated and queued.
    pub open spec fn invalidated(self, a: usize) -> Self {
        Model {
            nodes: Seq::new(self.nodes.len(), |i: int| self.invalidated_row(a, i)),
            pending: self.pending + self.newly_pending(a),
            ..self
        }
    }

    /// Signal `a` takes the value `v` and its version goes up by one.
    pub open spec fn stored(self, a: usize, v: T) -> Self {
        Model {
            nodes: self.nodes.update(
                a as int,
                Node {
                    value: Some(v),
                    version: (self.nodes[a as int].version + 1) as u64,
                    ..self.nodes[a as int]
                },
            ),
            ..self
        }
    }

    /// The state after `v` was written to signal `a`.
    pub open spec fn written(self, a: usize, v: T) -> Self {
        self.invalidated(a).stored(a, v)
    }

    /// Whether the write that led from `self` to `after` has to be followed
    /// by a flush: it queued the first work, outside any batch or evaluation.
    pub open spec fn flush_due(self, after: Self) -> bool {
        &&& self.pending.len() == 0
        &&& after.pending.len() > 0
        &&& self.batch == 0
        &&& self.running.len() == 0
    }
}

/// What is downstream of a node is a live computation.
pub proof fn lemma_touched_is_computation<T>(m: Model<T>, a: usize, n: usize)
    requires
        m.inv(),
        m.touches(a, n),
    ensures
        m.live(n),
        m.kind_of(n) != NodeKind::Signal,
{
    let c = lemma_reaches_last_hop(m.edges, a, n);
    let i = choose|i: int| 0 <= i < m.edges.len() && m.edges[i] == Edge { source: c, subscriber: n };
    assert(m.edges[i].subscriber == n);
}

/// What a write queues: each clean node downstream of the signal, once.
pub proof fn lemma_newly_pending<T>(m: Model<T>, a: usize)
    requires
        m.nodes.len() <= usize::MAX,
    ensures
        m.newly_pending(a).no_duplicates(),
        forall|n: usize| #[trigger]
            m.newly_pending(a).contains(n) <==> n < m.nodes.len() && m.is_clean(n) && m.touches(a, n),
{
    let keep = m.clean_downstream(a);
    lemma_filter_holds(upto(m.nodes.len()), keep);
    assert(upto(m.nodes.len()).no_duplicates());
    lemma_filter_distinct(upto(m.nodes.len()), keep);
    assert forall|n: usize| #[trigger]
        m.newly_pending(a).contains(n) <==> n < m.nodes.len() && m.is_clean(n) && m.touches(a, n) by {
        if n < m.nodes.len() {
            assert(upto(m.nodes.len())[n as int] == n);
        }
    }
}

/// An accepted write keeps the invariant.
pub proof fn lemma_written_inv<T>(m: Model<T>, a: usize, v: T)
    requires
        m.inv(),
        m.write_error(a) is None,
    ensures
        m.written(a, v).inv(),
{
    let w = m.written(a, v);
    let fresh = m.newly_pending(a);
    lemma_newly_pending(m, a);
    // a direct subscriber is downstream
    assert forall|n: usize| m.depends(n, a) implies m.touches(a, n) by {
        lemma_linked_reaches(m.edges, a, n);
        let i = choose|i: int| 0 <= i < m.edges.len() && m.edges[i] == Edge { source: a, subscriber: n };
        assert(m.kind_of(m.edges[i].subscriber) != NodeKind::Signal);
    }
    assert forall|n: usize| m.touches(a, n) implies m.live(n) && m.kind_of(n) != NodeKind::Signal by {
        lemma_touched_is_computation(m, a, n);
    }
    assert forall|n: usize| m.is_running(n) implies !m.touches(a, n) by {
        let i = choose|i: int| 0 <= i < m.running.len() && m.running[i] == n;
        assert(!m.touches(a, m.running[i]));
    }
    assert(w.nodes_ok()) by {
        assert forall|i: int| 0 <= i < w.nodes.len() implies ({
            let n = #[trigger] w.nodes[i];
            &&& n.scope < w.scopes.len()
            &&& (n.kind == NodeKind::Signal ==> n.state == Freshness::Clean && n.value is Some)
            &&& (n.kind == NodeKind::Effect ==> n.value is None)
            &&& (n.kind == NodeKind::Memo && n.state != Freshness::Dirty ==> n.value is Some)
        }) by {
            let n = m.nodes[i];
            let x = i as usize;
            assert(m.depends(x, a) ==> m.touches(a, x));
            assert(m.touches(a, x) ==> m.kind_of(x) != NodeKind::Signal);
            assert(n.scope < m.scopes.len());
            let r = m.invalidated_row(a, i);
            assert(m.invalidated(a).nodes[i] == r);
            assert(r.kind == n.kind && r.value == n.value && r.scope == n.scope);
            if x == a {
                assert(r == n);
            } else {
                assert(w.nodes[i] == r);
            }
        }
    }
    assert(w.edges_ok()) by {
        assert forall|i: int| 0 <= i < w.edges.len() implies ({
            let e = #[trigger] w.edges[i];
            &&& w.live(e.source)
            &&& w.live(e.subscriber)
            &&& w.kind_of(e.source) != NodeKind::Effect
            &&& w.kind_of(e.subscriber) != NodeKind::Signal
        }) by {
            let e = m.edges[i];
            assert(m.live(e.source) && m.live(e.subscriber));
        }
    }
    assert(w.settled_ok()) by {
        assert forall|i: int| 0 <= i < w.edges.len() implies ({
            let e = #[trigger] w.edges[i];
            w.is_clean(e.subscriber) || w.is_running(e.subscriber) ==> w.is_clean(e.source)
        }) by {
            let e = m.edges[i];
            assert(m.live(e.source) && m.live(e.subscriber));
            if w.is_clean(e.subscriber) || w.is_running(e.subscriber) {
                assert(!m.touches(a, e.subscriber));
                assert(m.is_clean(e.subscriber) || m.is_running(e.subscriber));
                assert(m.is_clean(e.source));
                if e.source == a {
                    assert(m.depends(e.subscriber, a));
                } else if m.touches(a, e.source) {
                    lemma_reaches_step(m.edges, a, e.source, e.subscriber);
                    assert(e.subscriber != a);
                }
                assert(!m.depends(e.source, a));
            }
        }
    }
    assert(w.running_ok()) by {
        assert forall|i: int| 0 <= i < w.running.len() implies ({
            let r = #[trigger] w.running[i];
            &&& r < w.nodes.len()
            &&& w.kind_of(r) != NodeKind::Signal
            &&& (w.live(r) ==> w.state_of(r) == Freshness::Dirty)
        }) by {
            let r = m.running[i];
            assert(m.is_running(r));
        }
    }
    assert(w.pending_ok()) by {
        assert forall|i: int| 0 <= i < w.pending.len() implies (#[trigger] w.pending[i]) < w.nodes.len() by {
            if i >= m.pending.len() {
                assert(fresh.contains(fresh[i - m.pending.len()]));
            }
        }
        assert forall|i: int, j: int| 0 <= i < m.pending.len() && 0 <= j < fresh.len() implies m.pending[i]
            != fresh[j] by {
            assert(fresh.contains(fresh[j]));
            assert(m.pending.contains(m.pending[i]));
        }
        lemma_no_dup_in_concat(m.pending, fresh);
        assert forall|n: usize| n < w.nodes.len() implies (#[trigger] w.pending.contains(n) <==> w.live(n)
            && !w.is_clean(n) && !w.is_running(n)) by {
            assert(m.pending.contains(n) <==> m.live(n) && !m.is_clean(n) && !m.is_running(n));
            assert(m.depends(n, a) ==> m.touches(a, n));
            if w.pending.contains(n) {
                let i = choose|i: int| 0 <= i < w.pending.len() && w.pending[i] == n;
                if i < m.pending.len() {
                    assert(m.pending.contains(n));
                } else {
                    assert(fresh[i - m.pending.len()] == n);
                    assert(fresh.contains(n));
                }
            }
            if m.pending.contains(n) {
                let i = choose|i: int| 0 <= i < m.pending.len() && m.pending[i] == n;
                assert(w.pending[i] == n);
            }
            if fresh.contains(n) {
                let i = choose|i: int| 0 <= i < fresh.len() && fresh[i] == n;
                assert(w.pending[m.pending.len() + i] == n);
            }
        }
    }
}

} // verus!
