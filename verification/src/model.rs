//! The mathematical state of the runtime and the invariant it keeps.

use crate::graph::acyclic;
use vstd::prelude::*;

verus! {

/// What a node of the dependency graph is.
#[derive(Clone, Copy, Debug, PartialEq, Eq, Structural)]
pub enum NodeKind {
    /// A mutable cell written by the host.
    Signal,
    /// A cached derivation of other signals and memos.
    Memo,
    /// A subscriber that only exists to run side effects.
    Effect,
}

/// How far a node is known to be up to date.
#[derive(Clone, Copy, Debug, PartialEq, Eq, Structural)]
pub enum Freshness {
    /// Consistent with everything upstream.
    Clean,
    /// Something further upstream changed; a direct dependency may or may not
    /// change once it is recomputed.
    Stale,
    /// A direct dependency changed: the node has to run again.
    Dirty,
}

/// One row of the node table.
pub struct Node<T> {
    pub kind: NodeKind,
    /// The scope that owns the node.
    pub scope: usize,
    pub state: Freshness,
    /// The current value of a signal, the cached value of a memo.
    pub value: Option<T>,
    /// Incremented by every write to a signal.
    pub version: u64,
}

/// One row of the scope table.
#[derive(Clone, Copy)]
pub struct ScopeRecord {
    pub parent: Option<usize>,
    pub alive: bool,
}

/// One subscription: `subscriber` read `source` during its last run.
#[derive(Clone, Copy, Debug, PartialEq, Eq, Structural)]
pub struct Edge {
    pub source: usize,
    pub subscriber: usize,
}

/// The whole state of a runtime, as plain sequences.
pub struct Model<T> {
    pub nodes: Seq<Node<T>>,
    pub scopes: Seq<ScopeRecord>,
    /// The subscription table.
    pub edges: Seq<Edge>,
    /// The scopes entered and not yet left, innermost last.
    pub scope_stack: Seq<usize>,
    /// The computations being evaluated, innermost last.
    pub running: Seq<usize>,
    /// The computations waiting for the scheduler, oldest first.
    pub pending: Seq<usize>,
    /// How many batches are open.
    pub batch: usize,
}

impl<T> Model<T> {
    /// A runtime with no scope and no node.
    pub open spec fn empty() -> Self {
        Model {
            nodes: Seq::empty(),
            scopes: Seq::empty(),
            edges: Seq::empty(),
            scope_stack: Seq::empty(),
            running: Seq::empty(),
            pending: Seq::empty(),
            batch: 0,
        }
    }

    /// The scope exists and has not been disposed.
    pub open spec fn scope_alive(self, s: usize) -> bool {
        s < self.scopes.len() && self.scopes[s as int].alive
    }

    /// The node exists and its owning scope has not been disposed.
    pub open spec fn live(self, n: usize) -> bool {
        n < self.nodes.len() && self.scope_alive(self.nodes[n as int].scope)
    }

    /// What node `n` is.
    pub open spec fn kind_of(self, n: usize) -> NodeKind {
        self.nodes[n as int].kind
    }

    /// How far node `n` is up to date.
    pub open spec fn state_of(self, n: usize) -> Freshness {
        self.nodes[n as int].state
    }

    /// What node `n` holds.
    pub open spec fn value_of(self, n: usize) -> Option<T> {
        self.nodes[n as int].value
    }

    /// Node `n` exists and is up to date.
    pub open spec fn is_clean(self, n: usize) -> bool {
        n < self.nodes.len() && self.nodes[n as int].state == Freshness::Clean
    }

    /// Node `n` is being evaluated.
    pub open spec fn is_running(self, n: usize) -> bool {
        self.running.contains(n)
    }

    /// A live signal: what a write handle must name.
    pub open spec fn live_signal(self, n: usize) -> bool {
        self.live(n) && self.kind_of(n) == NodeKind::Signal
    }

    /// A live signal or memo: what a read handle must name.
    pub open spec fn live_source(self, n: usize) -> bool {
        self.live(n) && self.kind_of(n) != NodeKind::Effect
    }

    /// The scope that would own a node created now.
    pub open spec fn current_scope(self) -> Option<usize> {
        if self.scope_stack.len() > 0 && self.scope_alive(self.scope_stack.last()) {
            Some(self.scope_stack.last())
        } else {
            None
        }
    }

    /// The computation that reads are charged to.
    pub open spec fn observer(self) -> Option<usize> {
        if self.running.len() > 0 && self.live(self.running.last()) {
            Some(self.running.last())
        } else {
            None
        }
    }

    /// `n` read `s` during its last run.
    pub open spec fn depends(self, n: usize, s: usize) -> bool {
        self.edges.contains(Edge { source: s, subscriber: n })
    }

    /// Every direct dependency of `n` is clean.
    pub open spec fn sources_clean(self, n: usize) -> bool {
        forall|i: int|
            0 <= i < self.edges.len() && (#[trigger] self.edges[i]).subscriber == n
                ==> self.is_clean(self.edges[i].source)
    }

    /// Every node has an owner; a signal is clean and holds a value, an
    /// effect holds none, and a memo holds one unless it is dirty.
    pub open spec fn nodes_ok(self) -> bool {
        forall|i: int|
            0 <= i < self.nodes.len() ==> {
                let n = #[trigger] self.nodes[i];
                &&& n.scope < self.scopes.len()
                &&& (n.kind == NodeKind::Signal ==> n.state == Freshness::Clean && n.value is Some)
                &&& (n.kind == NodeKind::Effect ==> n.value is None)
                &&& (n.kind == NodeKind::Memo && n.state != Freshness::Dirty ==> n.value is Some)
            }
    }

    /// A parent is older than its child and lives at least as long.
    pub open spec fn scopes_ok(self) -> bool {
        forall|i: int|
            0 <= i < self.scopes.len() ==> match (#[trigger] self.scopes[i]).parent {
                Some(p) => p < i && (self.scopes[i].alive ==> self.scopes[p as int].alive),
                None => true,
            }
    }

    /// A subscription links a live signal or memo to a live memo or effect.
    pub open spec fn edges_ok(self) -> bool {
        forall|i: int|
            0 <= i < self.edges.len() ==> {
                let e = #[trigger] self.edges[i];
                &&& self.live(e.source)
                &&& self.live(e.subscriber)
                &&& self.kind_of(e.source) != NodeKind::Effect
                &&& self.kind_of(e.subscriber) != NodeKind::Signal
            }
    }

    /// A node that is clean, or being evaluated, has only clean dependencies.
    pub open spec fn settled_ok(self) -> bool {
        forall|i: int|
            0 <= i < self.edges.len() ==> {
                let e = #[trigger] self.edges[i];
                self.is_clean(e.subscriber) || self.is_running(e.subscriber) ==> self.is_clean(
                    e.source,
                )
            }
    }

    /// What is being evaluated is a computation, is there once, and is dirty
    /// as long as it lives.
    pub open spec fn running_ok(self) -> bool {
        &&& forall|i: int|
            0 <= i < self.running.len() ==> {
                let r = #[trigger] self.running[i];
                &&& r < self.nodes.len()
                &&& self.kind_of(r) != NodeKind::Signal
                &&& (self.live(r) ==> self.state_of(r) == Freshness::Dirty)
            }
        &&& self.running.no_duplicates()
    }

    /// The pending queue holds exactly the live computations that are not
    /// clean and not being evaluated, each once.
    pub open spec fn pending_ok(self) -> bool {
        &&& forall|i: int| 0 <= i < self.pending.len() ==> (#[trigger] self.pending[i]) < self.nodes.len()
        &&& self.pending.no_duplicates()
        &&& forall|n: usize|
            n < self.nodes.len() ==> (#[trigger] self.pending.contains(n) <==> self.live(n)
                && !self.is_clean(n) && !self.is_running(n))
    }

    /// Every entered scope exists.
    pub open spec fn stack_ok(self) -> bool {
        forall|i: int| 0 <= i < self.scope_stack.len() ==> (#[trigger] self.scope_stack[i]) < self.scopes.len()
    }

    /// Every id fits a machine word.
    pub open spec fn bounds_ok(self) -> bool {
        self.nodes.len() <= usize::MAX && self.scopes.len() <= usize::MAX
    }

    /// The invariant of the runtime.
    pub open spec fn inv(self) -> bool {
        &&& self.bounds_ok()
        &&& self.nodes_ok()
        &&& self.scopes_ok()
        &&& self.edges_ok()
        &&& acyclic(self.edges)
        &&& self.settled_ok()
        &&& self.running_ok()
        &&& self.pending_ok()
        &&& self.stack_ok()
    }
}

} // verus!
