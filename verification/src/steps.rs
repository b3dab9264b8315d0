//! The transitions of the runtime as functions on its mathematical state,
//! each with the proof that it keeps the invariant.

use crate::graph::{hop, lemma_acyclic_push, reaches, route};
use crate::model::{Edge, Freshness, Model, Node, NodeKind, ScopeRecord};
use vstd::prelude::*;

verus! {

impl<T> Model<T> {
    /// A new live scope under `parent`.
    pub open spec fn with_scope(self, parent: Option<usize>) -> Self {
        Model { scopes: self.scopes.push(ScopeRecord { parent, alive: true }), ..self }
    }

    /// Scope `s` becomes the current scope.
    pub open spec fn entered(self, s: usize) -> Self {
        Model { scope_stack: self.scope_stack.push(s), ..self }
    }

    /// The current scope is left.
    pub open spec fn exited(self) -> Self {
        Model { scope_stack: self.scope_stack.drop_last(), ..self }
    }

    /// A new signal owned by `scope`.
    pub open spec fn with_signal(self, scope: usize, value: T) -> Self {
        Model {
            nodes: self.nodes.push(
                Node { kind: NodeKind::Signal, scope, state: Freshness::Clean, value: Some(value), version: 0 },
            ),
            ..self
        }
    }

    /// A new memo or effect owned by `scope`, whose first evaluation begins.
    pub open spec fn with_computation(self, kind: NodeKind, scope: usize) -> Self {
        Model {
            nodes: self.nodes.push(
                Node { kind, scope, state: Freshness::Dirty, value: None, version: 0 },
            ),
            running: self.running.push(self.nodes.len() as usize),
            ..self
        }
    }

    /// The observer, if there is one, subscribes to `s`.
    pub open spec fn subscribed(self, s: usize) -> Self {
        match self.observer() {
            Some(o) => if self.depends(o, s) {
                self
            } else {
                Model { edges: self.edges.push(Edge { source: s, subscriber: o }), ..self }
            },
            None => self,
        }
    }

    /// The innermost evaluation ends without a result.
    pub open spec fn popped(self) -> Self {
        Model { running: self.running.drop_last(), ..self }
    }

    /// The innermost evaluation, of an effect, ends.
    pub open spec fn finished_effect(self) -> Self {
        let e = self.running.last();
        if self.live(e) {
            Model {
                nodes: self.nodes.update(e as int, Node { state: Freshness::Clean, ..self.nodes[e as int] }),
                ..self.popped()
            }
        } else {
            self.popped()
        }
    }

    /// What row `i` is after memo `m` has been given the value `v`.
    pub open spec fn memo_row(self, m: usize, v: T, changed: bool, i: int) -> Node<T> {
        let n = self.nodes[i];
        if i == m {
            Node { state: Freshness::Clean, value: Some(v), ..n }
        } else if changed && self.depends(i as usize, m) {
            Node { state: Freshness::Dirty, ..n }
        } else {
            n
        }
    }

    /// The innermost evaluation, of a memo, ends with the value `v`. When the
    /// value changed, every subscriber of the memo becomes dirty.
    pub open spec fn finished_memo(self, v: T, changed: bool) -> Self {
        let m = self.running.last();
        if self.live(m) {
            Model {
                nodes: Seq::new(self.nodes.len(), |i: int| self.memo_row(m, v, changed, i)),
                ..self.popped()
            }
        } else {
            self.popped()
        }
    }
}

/// A new scope under a live parent, or under none, keeps the invariant.
pub proof fn lemma_with_scope_inv<T>(m: Model<T>, parent: Option<usize>)
    requires
        m.inv(),
        m.scopes.len() < usize::MAX,
        parent is Some ==> m.scope_alive(parent->0),
    ensures
        m.with_scope(parent).inv(),
{
    let a = m.with_scope(parent);
    assert forall|n: usize| n < a.nodes.len() implies (#[trigger] a.pending.contains(n) <==> a.live(n)
        && !a.is_clean(n) && !a.is_running(n)) by {
        assert(m.pending.contains(n) <==> m.live(n) && !m.is_clean(n) && !m.is_running(n));
    }
}

/// Entering a scope keeps the invariant.
pub proof fn lemma_entered_inv<T>(m: Model<T>, s: usize)
    requires
        m.inv(),
        s < m.scopes.len(),
    ensures
        m.entered(s).inv(),
{
    let a = m.entered(s);
    assert forall|n: usize| n < a.nodes.len() implies (#[trigger] a.pending.contains(n) <==> a.live(n)
        && !a.is_clean(n) && !a.is_running(n)) by {
        assert(m.pending.contains(n) <==> m.live(n) && !m.is_clean(n) && !m.is_running(n));
    }
}

/// Leaving a scope keeps the invariant.
pub proof fn lemma_exited_inv<T>(m: Model<T>)
    requires
        m.inv(),
        m.scope_stack.len() > 0,
    ensures
        m.exited().inv(),
{
    let a = m.exited();
    assert forall|n: usize| n < a.nodes.len() implies (#[trigger] a.pending.contains(n) <==> a.live(n)
        && !a.is_clean(n) && !a.is_running(n)) by {
        assert(m.pending.contains(n) <==> m.live(n) && !m.is_clean(n) && !m.is_running(n));
    }
}

/// A new signal in the current scope keeps the invariant.
pub proof fn lemma_with_signal_inv<T>(m: Model<T>, v: T)
    requires
        m.inv(),
        m.current_scope() is Some,
        m.nodes.len() < usize::MAX,
    ensures
        m.with_signal(m.current_scope()->0, v).inv(),
{
    let a = m.with_signal(m.current_scope()->0, v);
    let id = m.nodes.len() as usize;
    assert forall|n: usize| n < a.nodes.len() implies (#[trigger] a.pending.contains(n) <==> a.live(n)
        && !a.is_clean(n) && !a.is_running(n)) by {
        if n < id {
            assert(m.pending.contains(n) <==> m.live(n) && !m.is_clean(n) && !m.is_running(n));
        } else {
            if m.pending.contains(n) {
                let i = choose|i: int| 0 <= i < m.pending.len() && m.pending[i] == n;
                assert(m.pending[i] < m.nodes.len());
            }
        }
    }
}

/// A new memo or effect in the current scope keeps the invariant.
pub proof fn lemma_with_computation_inv<T>(m: Model<T>, kind: NodeKind)
    requires
        m.inv(),
        m.current_scope() is Some,
        kind != NodeKind::Signal,
        m.nodes.len() < usize::MAX,
    ensures
        m.with_computation(kind, m.current_scope()->0).inv(),
{
    let a = m.with_computation(kind, m.current_scope()->0);
    let id = m.nodes.len() as usize;
    assert forall|i: int| 0 <= i < m.running.len() implies (#[trigger] m.running[i]) != id by {}
    assert forall|n: usize| n < a.nodes.len() implies (#[trigger] a.pending.contains(n) <==> a.live(n)
        && !a.is_clean(n) && !a.is_running(n)) by {
        if n < id {
            assert(m.pending.contains(n) <==> m.live(n) && !m.is_clean(n) && !m.is_running(n));
            if a.is_running(n) {
                let i = choose|i: int| 0 <= i < a.running.len() && a.running[i] == n;
                assert(m.running[i] == n);
            }
            if m.is_running(n) {
                let i = choose|i: int| 0 <= i < m.running.len() && m.running[i] == n;
                assert(a.running[i] == n);
            }
        } else {
            assert(a.running[a.running.len() - 1] == n);
            if m.pending.contains(n) {
                let i = choose|i: int| 0 <= i < m.pending.len() && m.pending[i] == n;
                assert(m.pending[i] < m.nodes.len());
            }
        }
    }
    assert forall|i: int| 0 <= i < a.edges.len() implies ({
        let e = #[trigger] a.edges[i];
        a.is_clean(e.subscriber) || a.is_running(e.subscriber) ==> a.is_clean(e.source)
    }) by {
        let e = a.edges[i];
        assert(m.live(e.subscriber));
        if a.is_running(e.subscriber) {
            let k = choose|k: int| 0 <= k < a.running.len() && a.running[k] == e.subscriber;
            assert(m.running[k] == e.subscriber);
        }
    }
}

/// Everything upstream of a node whose dependencies are clean is clean.
pub proof fn lemma_upstream_clean<T>(m: Model<T>, x: usize, u: usize)
    requires
        m.inv(),
        m.sources_clean(x),
        reaches(m.edges, u, x),
        u != x,
    ensures
        m.is_clean(u),
{
    let p = choose|p: Seq<usize>| #[trigger] route(m.edges, p, u, x);
    lemma_route_clean(m, p, u, x, 0);
}

/// Every node before the last of a path to a node with clean dependencies
/// is clean.
proof fn lemma_route_clean<T>(m: Model<T>, p: Seq<usize>, u: usize, x: usize, k: int)
    requires
        m.inv(),
        m.sources_clean(x),
        route(m.edges, p, u, x),
        0 <= k < p.len() - 1,
    ensures
        m.is_clean(p[k]),
    decreases p.len() - k,
{
    assert(hop(m.edges, p, k));
    let e = Edge { source: p[k], subscriber: p[k + 1] };
    let i = choose|i: int| 0 <= i < m.edges.len() && m.edges[i] == e;
    assert(m.edges[i].subscriber == p[k + 1]);
    if k + 1 < p.len() - 1 {
        lemma_route_clean(m, p, u, x, k + 1);
    }
}

/// Subscribing the observer to a clean node keeps the invariant.
pub proof fn lemma_subscribed_inv<T>(m: Model<T>, s: usize)
    requires
        m.inv(),
        m.live_source(s),
        m.is_clean(s),
    ensures
        m.subscribed(s).inv(),
{
    let a = m.subscribed(s);
    if a != m {
        let o = m.observer()->0;
        assert(m.running[m.running.len() - 1] == o);
        // the observer is dirty while it runs, so nothing clean depends on it
        if reaches(m.edges, o, s) {
            lemma_upstream_clean(m, s, o);
        }
        lemma_acyclic_push(m.edges, Edge { source: s, subscriber: o });
        assert forall|n: usize| n < a.nodes.len() implies (#[trigger] a.pending.contains(n) <==> a.live(n)
            && !a.is_clean(n) && !a.is_running(n)) by {
            assert(m.pending.contains(n) <==> m.live(n) && !m.is_clean(n) && !m.is_running(n));
        }
    }
}

/// The end of an effect's run keeps the invariant.
pub proof fn lemma_finished_effect_inv<T>(m: Model<T>)
    requires
        m.inv(),
        m.running.len() > 0,
        m.kind_of(m.running.last()) == NodeKind::Effect,
    ensures
        m.finished_effect().inv(),
{
    let a = m.finished_effect();
    let e = m.running.last();
    let top = m.running.len() - 1;
    assert(m.running[top] == e);
    assert forall|x: usize| a.is_running(x) <==> m.is_running(x) && x != e by {
        if a.is_running(x) {
            let i = choose|i: int| 0 <= i < a.running.len() && a.running[i] == x;
            assert(m.running[i] == x);
        }
        if m.is_running(x) && x != e {
            let i = choose|i: int| 0 <= i < m.running.len() && m.running[i] == x;
            assert(a.running[i] == x);
        }
    }
    assert forall|n: usize| n < a.nodes.len() implies (#[trigger] a.pending.contains(n) <==> a.live(n)
        && !a.is_clean(n) && !a.is_running(n)) by {
        assert(m.pending.contains(n) <==> m.live(n) && !m.is_clean(n) && !m.is_running(n));
    }
    assert forall|i: int| 0 <= i < a.edges.len() implies ({
        let d = #[trigger] a.edges[i];
        a.is_clean(d.subscriber) || a.is_running(d.subscriber) ==> a.is_clean(d.source)
    }) by {
        let d = m.edges[i];
        assert(m.live(d.source) && m.live(d.subscriber));
    }
}

/// The end of a memo's evaluation keeps the invariant.
pub proof fn lemma_finished_memo_inv<T>(m: Model<T>, v: T, changed: bool)
    requires
        m.inv(),
        m.running.len() > 0,
        m.kind_of(m.running.last()) == NodeKind::Memo,
    ensures
        m.finished_memo(v, changed).inv(),
{
    let a = m.finished_memo(v, changed);
    let e = m.running.last();
    let top = m.running.len() - 1;
    assert(m.running[top] == e);
    assert forall|x: usize| a.is_running(x) <==> m.is_running(x) && x != e by {
        if a.is_running(x) {
            let i = choose|i: int| 0 <= i < a.running.len() && a.running[i] == x;
            assert(m.running[i] == x);
        }
        if m.is_running(x) && x != e {
            let i = choose|i: int| 0 <= i < m.running.len() && m.running[i] == x;
            assert(a.running[i] == x);
        }
    }
    if m.live(e) {
        // a subscriber of the memo is neither clean nor being evaluated
        assert forall|x: usize| m.depends(x, e) implies !m.is_clean(x) && !m.is_running(x) && m.live(x)
            && x != e by {
            let i = choose|i: int| 0 <= i < m.edges.len() && m.edges[i] == Edge { source: e, subscriber: x };
            assert(m.edges[i].subscriber == x);
        }
        assert forall|i: int| 0 <= i < a.running.len() implies ({
            let r = #[trigger] a.running[i];
            &&& r < a.nodes.len()
            &&& a.kind_of(r) != NodeKind::Signal
            &&& (a.live(r) ==> a.state_of(r) == Freshness::Dirty)
        }) by {
            assert(m.running[i] == a.running[i]);
            assert(m.is_running(a.running[i]));
        }
    }
    assert forall|n: usize| n < a.nodes.len() implies (#[trigger] a.pending.contains(n) <==> a.live(n)
        && !a.is_clean(n) && !a.is_running(n)) by {
        assert(m.pending.contains(n) <==> m.live(n) && !m.is_clean(n) && !m.is_running(n));
    }
    assert forall|i: int| 0 <= i < a.edges.len() implies ({
        let d = #[trigger] a.edges[i];
        a.is_clean(d.subscriber) || a.is_running(d.subscriber) ==> a.is_clean(d.source)
    }) by {
        let d = m.edges[i];
        assert(m.live(d.source) && m.live(d.subscriber));
    }
    assert(a.nodes_ok()) by {
        assert forall|i: int| 0 <= i < a.nodes.len() implies ({
            let n = #[trigger] a.nodes[i];
            &&& n.scope < a.scopes.len()
            &&& (n.kind == NodeKind::Signal ==> n.state == Freshness::Clean && n.value is Some)
            &&& (n.kind == NodeKind::Effect ==> n.value is None)
            &&& (n.kind == NodeKind::Memo && n.state != Freshness::Dirty ==> n.value is Some)
        }) by {
            let n = m.nodes[i];
            if m.live(e) && changed && m.depends(i as usize, e) {
                let k = choose|k: int| 0 <= k < m.edges.len() && m.edges[k] == Edge { source: e, subscriber: i as usize };
                assert(m.kind_of(m.edges[k].subscriber) != NodeKind::Signal);
            }
        }
    }
}

} // verus!
