//! Disposing scopes: a scope goes with every scope below it and with every
//! node that any of them owns.

use crate::error::ReactiveError;
use crate::graph::lemma_acyclic_subtable;
use crate::model::{Edge, Freshness, Model, NodeKind, ScopeRecord};
use crate::runtime::Runtime;
use crate::seqs::{lemma_filter_distinct, lemma_filter_empty, lemma_filter_holds, lemma_filter_push};
use crate::steps::lemma_with_scope_inv;
use vstd::prelude::*;

verus! {

impl<T> Model<T> {
    /// Scope `s` is `root` or lies below it.
    pub open spec fn within(self, s: usize, root: usize) -> bool
        decreases s,
    {
        s == root || (s < self.scopes.len() && match self.scopes[s as int].parent {
            Some(p) => p < s && self.within(p, root),
            None => false,
        })
    }

    /// The scope table after `root` and what lies below it was disposed.
    pub open spec fn disposed_scopes(self, root: usize) -> Seq<ScopeRecord> {
        Seq::new(
            self.scopes.len(),
            |i: int|
                if self.within(i as usize, root) {
                    ScopeRecord { alive: false, ..self.scopes[i] }
                } else {
                    self.scopes[i]
                },
        )
    }

    /// Node `n` is live and is not owned by `root` or a scope below it.
    pub open spec fn survives(self, root: usize, n: usize) -> bool {
        self.live(n) && !self.within(self.nodes[n as int].scope, root)
    }

    /// The test for a node that outlives `root`.
    pub open spec fn node_survives(self, root: usize) -> spec_fn(usize) -> bool {
        |n: usize| self.survives(root, n)
    }

    /// The test for a subscription between nodes that outlive `root`.
    pub open spec fn edge_survives(self, root: usize) -> spec_fn(Edge) -> bool {
        |e: Edge| self.survives(root, e.source) && self.survives(root, e.subscriber)
    }

    /// The state after scope `root` was disposed: the scopes at and below it
    /// are dead, and the nodes they own have lost their subscriptions and
    /// their place in the queue. Everything else is as before.
    pub open spec fn disposed(self, root: usize) -> Self {
        Model {
            scopes: self.disposed_scopes(root),
            edges: self.edges.filter(self.edge_survives(root)),
            pending: self.pending.filter(self.node_survives(root)),
            ..self
        }
    }
}

/// Disposing a scope keeps the invariant, and leaves alive exactly the
/// nodes that outlive the scope.
pub proof fn lemma_disposed_inv<T>(m: Model<T>, root: usize)
    requires
        m.inv(),
    ensures
        m.disposed(root).inv(),
        forall|n: usize| m.disposed(root).live(n) <==> m.survives(root, n),
{
    let a = m.disposed(root);
    lemma_filter_holds(m.edges, m.edge_survives(root));
    lemma_filter_holds(m.pending, m.node_survives(root));
    lemma_filter_distinct(m.pending, m.node_survives(root));
    assert forall|n: usize| a.live(n) <==> m.survives(root, n) by {
        if n < m.nodes.len() {
            assert(m.nodes[n as int].scope < m.scopes.len());
        }
    }
    assert(a.scopes_ok()) by {
        assert forall|i: int| 0 <= i < a.scopes.len() implies match (#[trigger] a.scopes[i]).parent {
            Some(p) => p < i && (a.scopes[i].alive ==> a.scopes[p as int].alive),
            None => true,
        } by {
            let rec = m.scopes[i];
            assert(a.scopes[i].parent == rec.parent);
        }
    }
    assert(a.nodes_ok());
    assert forall|i: int| 0 <= i < a.edges.len() implies m.edges.contains(#[trigger] a.edges[i])
        && m.survives(root, a.edges[i].source) && m.survives(root, a.edges[i].subscriber) by {
        assert(a.edges.contains(a.edges[i]));
    }
    lemma_acyclic_subtable(m.edges, a.edges);
    assert(a.edges_ok()) by {
        assert forall|i: int| 0 <= i < a.edges.len() implies ({
            let e = #[trigger] a.edges[i];
            &&& a.live(e.source)
            &&& a.live(e.subscriber)
            &&& a.kind_of(e.source) != NodeKind::Effect
            &&& a.kind_of(e.subscriber) != NodeKind::Signal
        }) by {
            let e = a.edges[i];
            let j = choose|j: int| 0 <= j < m.edges.len() && m.edges[j] == e;
            assert(m.live(m.edges[j].source));
        }
    }
    assert(a.settled_ok()) by {
        assert forall|i: int| 0 <= i < a.edges.len() implies ({
            let e = #[trigger] a.edges[i];
            a.is_clean(e.subscriber) || a.is_running(e.subscriber) ==> a.is_clean(e.source)
        }) by {
            let e = a.edges[i];
            let j = choose|j: int| 0 <= j < m.edges.len() && m.edges[j] == e;
            assert(m.live(m.edges[j].source));
        }
    }
    assert(a.running_ok()) by {
        assert forall|i: int| 0 <= i < a.running.len() implies ({
            let r = #[trigger] a.running[i];
            &&& r < a.nodes.len()
            &&& a.kind_of(r) != NodeKind::Signal
            &&& (a.live(r) ==> a.state_of(r) == Freshness::Dirty)
        }) by {
            let r = m.running[i];
            assert(a.live(r) ==> m.live(r));
        }
    }
    assert(a.pending_ok()) by {
        assert forall|i: int| 0 <= i < a.pending.len() implies (#[trigger] a.pending[i]) < a.nodes.len() by {
            assert(a.pending.contains(a.pending[i]));
        }
        assert forall|x: usize| x < a.nodes.len() implies (#[trigger] a.pending.contains(x) <==> a.live(x)
            && !a.is_clean(x) && !a.is_running(x)) by {
            assert(m.pending.contains(x) <==> m.live(x) && !m.is_clean(x) && !m.is_running(x));
        }
    }
}

impl<T: PartialEq> Runtime<T> {
    /// Creates a live scope under `parent`, without entering it.
    pub fn create_child_scope(&mut self, parent: usize) -> (r: Result<usize, ReactiveError>)
        requires
            old(self).wf(),
        ensures
            final(self).wf(),
            match r {
                Ok(id) => {
                    &&& old(self)@.scope_alive(parent)
                    &&& id == old(self)@.scopes.len()
                    &&& final(self)@ == old(self)@.with_scope(Some(parent))
                },
                Err(e) => e == ReactiveError::UseAfterDispose && !old(self)@.scope_alive(parent)
                    && final(self)@ == old(self)@,
            },
    {
        if !self.scope_alive(parent) {
            return Err(ReactiveError::UseAfterDispose);
        }
        let id = self.scopes.len();
        self.scopes.push(ScopeRecord { parent: Some(parent), alive: true });
        let count = self.scopes.len();
        proof {
            assert(count == id + 1);
            lemma_with_scope_inv(old(self)@, Some(parent));
        }
        Ok(id)
    }

    /// Marks the scopes at and below `root`.
    fn subtree(&self, root: usize) -> (doomed: Vec<bool>)
        requires
            self.wf(),
        ensures
            doomed@.len() == self@.scopes.len(),
            forall|i: int| 0 <= i < doomed@.len() ==> doomed@[i] == self@.within(i as usize, root),
    {
        let mut doomed: Vec<bool> = Vec::new();
        let mut i: usize = 0;
        while i < self.scopes.len()
            invariant
                self.wf(),
                i <= self.scopes.len(),
                doomed@.len() == i,
                forall|j: int| 0 <= j < i ==> doomed@[j] == self@.within(j as usize, root),
            decreases self.scopes.len() - i,
        {
            let below = match self.scopes[i].parent {
                Some(p) => {
                    proof {
                        assert(self@.scopes[i as int].parent == Some(p));
                    }
                    doomed[p]
                },
                None => false,
            };
            doomed.push(i == root || below);
            i += 1;
        }
        doomed
    }

    /// Disposes a scope with every scope below it. The nodes that they own
    /// are dead from now on: they lose their subscriptions and their
    /// subscribers and leave the queue, whose other entries keep their order.
    /// A disposed computation that is being evaluated stays the observer
    /// until the host ends its evaluation.
    pub fn dispose_scope(&mut self, scope: usize) -> (r: Result<(), ReactiveError>)
        requires
            old(self).wf(),
        ensures
            final(self).wf(),
            match r {
                Ok(()) => old(self)@.scope_alive(scope) && final(self)@ == old(self)@.disposed(scope),
                Err(e) => e == ReactiveError::UseAfterDispose && !old(self)@.scope_alive(scope)
                    && final(self)@ == old(self)@,
            },
    {
        if !self.scope_alive(scope) {
            return Err(ReactiveError::UseAfterDispose);
        }
        let ghost pre = self@;
        let doomed = self.subtree(scope);
        let mut i: usize = 0;
        while i < self.scopes.len()
            invariant
                i <= self.scopes.len(),
                self.scopes@.len() == pre.scopes.len(),
                doomed@.len() == pre.scopes.len(),
                forall|j: int| 0 <= j < doomed@.len() ==> doomed@[j] == pre.within(j as usize, scope),
                forall|j: int|
                    0 <= j < pre.scopes.len() ==> #[trigger] self.scopes@[j] == (if j < i {
                        pre.disposed_scopes(scope)[j]
                    } else {
                        pre.scopes[j]
                    }),
                self.nodes@ == pre.nodes,
                self.edges@ == pre.edges,
                self.scope_stack@ == pre.scope_stack,
                self.running@ == pre.running,
                self.pending@ == pre.pending,
                self.batch == pre.batch,
            decreases self.scopes.len() - i,
        {
            if doomed[i] {
                self.scopes[i].alive = false;
            }
            i += 1;
        }
        proof {
            assert(self.scopes@ =~= pre.disposed_scopes(scope));
            lemma_disposed_inv(pre, scope);
            lemma_filter_empty(pre.edge_survives(scope));
            lemma_filter_empty(pre.node_survives(scope));
            assert(pre.edges.take(0) =~= Seq::<Edge>::empty());
            assert(pre.pending.take(0) =~= Seq::<usize>::empty());
            assert forall|n: usize| self@.live(n) <==> pre.survives(scope, n) by {
                assert(self@.live(n) <==> (Model { scopes: pre.disposed_scopes(scope), ..pre }).live(n));
                if n < pre.nodes.len() {
                    assert(pre.nodes[n as int].scope < pre.scopes.len());
                }
            }
        }
        let mut edges: Vec<Edge> = Vec::new();
        let mut k: usize = 0;
        while k < self.edges.len()
            invariant
                k <= self.edges.len(),
                self.edges@ == pre.edges,
                forall|n: usize| self@.live(n) <==> pre.survives(scope, n),
                edges@ == pre.edges.take(k as int).filter(pre.edge_survives(scope)),
            decreases self.edges.len() - k,
        {
            let e = self.edges[k];
            proof {
                assert(pre.edges.take(k as int + 1) =~= pre.edges.take(k as int).push(e));
                lemma_filter_push(pre.edges.take(k as int), e, pre.edge_survives(scope));
            }
            if self.is_live(e.source) && self.is_live(e.subscriber) {
                edges.push(e);
            }
            k += 1;
        }
        let mut pending: Vec<usize> = Vec::new();
        let mut q: usize = 0;
        while q < self.pending.len()
            invariant
                q <= self.pending.len(),
                self.pending@ == pre.pending,
                forall|n: usize| self@.live(n) <==> pre.survives(scope, n),
                pending@ == pre.pending.take(q as int).filter(pre.node_survives(scope)),
            decreases self.pending.len() - q,
        {
            let x = self.pending[q];
            proof {
                assert(pre.pending.take(q as int + 1) =~= pre.pending.take(q as int).push(x));
                lemma_filter_push(pre.pending.take(q as int), x, pre.node_survives(scope));
            }
            if self.is_live(x) {
                pending.push(x);
            }
            q += 1;
        }
        proof {
            assert(pre.edges.take(k as int) =~= pre.edges);
            assert(pre.pending.take(q as int) =~= pre.pending);
        }
        self.edges = edges;
        self.pending = pending;
        Ok(())
    }
}

} // verus!
