//! The executable runtime: tables of nodes, scopes and subscriptions.

use crate::error::ReactiveError;
use crate::graph::{lemma_acyclic_empty, linked};
use crate::handle::{by_value, EffectHandle, Fetched, ReadSignal, WriteSignal};
use crate::invalidate::dirtied;
use crate::model::{Edge, Freshness, Model, Node, NodeKind, ScopeRecord};
use crate::steps::{
    lemma_entered_inv, lemma_exited_inv, lemma_finished_effect_inv, lemma_finished_memo_inv,
    lemma_subscribed_inv, lemma_with_computation_inv, lemma_with_scope_inv, lemma_with_signal_inv,
};
use vstd::prelude::*;
use vstd::std_specs::cmp::PartialEqSpec;

verus! {

/// A reactive runtime over values of type `T`.
pub struct Runtime<T> {
    pub(crate) nodes: Vec<Node<T>>,
    pub(crate) scopes: Vec<ScopeRecord>,
    pub(crate) edges: Vec<Edge>,
    pub(crate) scope_stack: Vec<usize>,
    pub(crate) running: Vec<usize>,
    pub(crate) pending: Vec<usize>,
    pub(crate) batch: usize,
}

impl<T> Model<T> {
    /// What reading node `id` yields.
    pub open spec fn read_result(self, id: usize) -> Result<Fetched<T>, ReactiveError> {
        if !self.live_source(id) {
            Err(ReactiveError::UseAfterDispose)
        } else if self.is_running(id) {
            Err(ReactiveError::CyclicDependency)
        } else if !self.is_clean(id) {
            Ok(Fetched::Stale)
        } else {
            Ok(Fetched::Ready(self.value_of(id)->0))
        }
    }

    /// The innermost evaluation is that of a memo.
    pub open spec fn memo_running(self) -> bool {
        self.running.len() > 0 && self.kind_of(self.running.last()) == NodeKind::Memo
    }

    /// The innermost evaluation is that of an effect.
    pub open spec fn effect_running(self) -> bool {
        self.running.len() > 0 && self.kind_of(self.running.last()) == NodeKind::Effect
    }
}

impl<T: PartialEq> Model<T> {
    /// Whether `v` differs from what node `m` holds.
    pub open spec fn differs(self, m: usize, v: T) -> bool {
        match self.value_of(m) {
            Some(w) => !v.eq_spec(&w),
            None => true,
        }
    }
}

impl<T> Runtime<T> {
    /// The mathematical state of the runtime.
    pub open(crate) spec fn view(&self) -> Model<T> {
        Model {
            nodes: self.nodes@,
            scopes: self.scopes@,
            edges: self.edges@,
            scope_stack: self.scope_stack@,
            running: self.running@,
            pending: self.pending@,
            batch: self.batch,
        }
    }

    /// The runtime's invariant holds.
    pub open spec fn wf(&self) -> bool {
        self@.inv()
    }
}

impl<T: PartialEq> Runtime<T> {
    /// A runtime with no scope and no node.
    pub fn new() -> (rt: Self)
        ensures
            rt.wf(),
            rt@ == Model::<T>::empty(),
    {
        let rt = Runtime {
            nodes: Vec::new(),
            scopes: Vec::new(),
            edges: Vec::new(),
            scope_stack: Vec::new(),
            running: Vec::new(),
            pending: Vec::new(),
            batch: 0,
        };
        assert(rt@.nodes =~= Model::<T>::empty().nodes);
        assert(rt@.scopes =~= Model::<T>::empty().scopes);
        assert(rt@.edges =~= Model::<T>::empty().edges);
        assert(rt@.scope_stack =~= Model::<T>::empty().scope_stack);
        assert(rt@.running =~= Model::<T>::empty().running);
        assert(rt@.pending =~= Model::<T>::empty().pending);
        proof {
            lemma_acyclic_empty();
        }
        rt
    }

    /// How many scopes were ever created.
    pub fn scope_count(&self) -> (count: usize)
        ensures
            count == self@.scopes.len(),
    {
        self.scopes.len()
    }

    /// How many nodes were ever created.
    pub fn node_count(&self) -> (count: usize)
        ensures
            count == self@.nodes.len(),
    {
        self.nodes.len()
    }

    /// Whether scope `s` exists and has not been disposed.
    pub fn scope_alive(&self, s: usize) -> (alive: bool)
        ensures
            alive == self@.scope_alive(s),
    {
        s < self.scopes.len() && self.scopes[s].alive
    }

    /// Whether node `n` exists and its scope has not been disposed.
    pub fn is_live(&self, n: usize) -> (live: bool)
        ensures
            live == self@.live(n),
    {
        n < self.nodes.len() && self.scope_alive(self.nodes[n].scope)
    }

    /// The scope that would own a node created now.
    pub fn current_scope(&self) -> (scope: Option<usize>)
        ensures
            scope == self@.current_scope(),
    {
        let depth = self.scope_stack.len();
        if depth > 0 && self.scope_alive(self.scope_stack[depth - 1]) {
            Some(self.scope_stack[depth - 1])
        } else {
            None
        }
    }

    /// The computation that reads are charged to.
    pub fn observer(&self) -> (node: Option<usize>)
        ensures
            node == self@.observer(),
    {
        let depth = self.running.len();
        if depth > 0 && self.is_live(self.running[depth - 1]) {
            Some(self.running[depth - 1])
        } else {
            None
        }
    }

    /// Whether node `n` is being evaluated.
    pub fn is_running(&self, n: usize) -> (found: bool)
        ensures
            found == self@.is_running(n),
    {
        let mut i: usize = 0;
        while i < self.running.len()
            invariant
                i <= self.running.len(),
                forall|j: int| 0 <= j < i ==> self.running@[j] != n,
            decreases self.running.len() - i,
        {
            if self.running[i] == n {
                return true;
            }
            i += 1;
        }
        false
    }

    /// Whether `subscriber` read `source` during its last run.
    pub fn depends(&self, subscriber: usize, source: usize) -> (found: bool)
        ensures
            found == self@.depends(subscriber, source),
    {
        let mut i: usize = 0;
        while i < self.edges.len()
            invariant
                i <= self.edges.len(),
                forall|j: int| 0 <= j < i ==> self.edges@[j] != (Edge { source, subscriber }),
            decreases self.edges.len() - i,
        {
            if self.edges[i].source == source && self.edges[i].subscriber == subscriber {
                return true;
            }
            i += 1;
        }
        false
    }

    /// Creates a live scope under the current scope, or a root scope when
    /// there is none, without entering it.
    pub fn create_scope(&mut self) -> (id: usize)
        requires
            old(self).wf(),
        ensures
            final(self).wf(),
            id == old(self)@.scopes.len(),
            final(self)@ == old(self)@.with_scope(old(self)@.current_scope()),
    {
        let parent = self.current_scope();
        let id = self.scopes.len();
        self.scopes.push(ScopeRecord { parent, alive: true });
        let count = self.scopes.len();
        proof {
            assert(count == id + 1);
            lemma_with_scope_inv(old(self)@, parent);
        }
        id
    }

    /// Makes `scope` the current scope, until the matching `exit_scope`.
    pub fn enter_scope(&mut self, scope: usize) -> (r: Result<(), ReactiveError>)
        requires
            old(self).wf(),
        ensures
            final(self).wf(),
            match r {
                Ok(()) => old(self)@.scope_alive(scope) && final(self)@ == old(self)@.entered(scope),
                Err(e) => e == ReactiveError::UseAfterDispose && !old(self)@.scope_alive(scope)
                    && final(self)@ == old(self)@,
            },
    {
        if !self.scope_alive(scope) {
            return Err(ReactiveError::UseAfterDispose);
        }
        self.scope_stack.push(scope);
        proof {
            lemma_entered_inv(old(self)@, scope);
        }
        Ok(())
    }

    /// Leaves the current scope and returns it; `None` when no scope was
    /// entered.
    pub fn exit_scope(&mut self) -> (left: Option<usize>)
        requires
            old(self).wf(),
        ensures
            final(self).wf(),
            match left {
                Some(s) => old(self)@.scope_stack.len() > 0 && s == old(self)@.scope_stack.last()
                    && final(self)@ == old(self)@.exited(),
                None => old(self)@.scope_stack.len() == 0 && final(self)@ == old(self)@,
            },
    {
        let left = self.scope_stack.pop();
        proof {
            if left is Some {
                lemma_exited_inv(old(self)@);
                assert(self@.scope_stack =~= old(self)@.exited().scope_stack);
            }
        }
        left
    }

    /// Creates a signal in the current scope and returns its two handles.
    pub fn create_signal(&mut self, initial: T) -> (r: Result<(ReadSignal, WriteSignal), ReactiveError>)
        requires
            old(self).wf(),
        ensures
            final(self).wf(),
            match r {
                Ok((reader, writer)) => {
                    &&& old(self)@.current_scope() is Some
                    &&& reader.id == old(self)@.nodes.len()
                    &&& writer.id == reader.id
                    &&& final(self)@ == old(self)@.with_signal(old(self)@.current_scope()->0, initial)
                },
                Err(e) => e == ReactiveError::NoActiveScope && old(self)@.current_scope() is None
                    && final(self)@ == old(self)@,
            },
    {
        match self.current_scope() {
            None => Err(ReactiveError::NoActiveScope),
            Some(scope) => {
                let id = self.nodes.len();
                self.nodes.push(
                    Node { kind: NodeKind::Signal, scope, state: Freshness::Clean, value: Some(initial), version: 0 },
                );
                let count = self.nodes.len();
                proof {
                    assert(count == id + 1);
                    lemma_with_signal_inv(old(self)@, initial);
                }
                Ok((ReadSignal { id }, WriteSignal { id }))
            },
        }
    }

    /// Creates a memo or effect in the current scope and begins its first
    /// evaluation.
    fn begin(&mut self, kind: NodeKind) -> (r: Result<usize, ReactiveError>)
        requires
            old(self).wf(),
            kind != NodeKind::Signal,
        ensures
            final(self).wf(),
            match r {
                Ok(id) => {
                    &&& old(self)@.current_scope() is Some
                    &&& id == old(self)@.nodes.len()
                    &&& final(self)@ == old(self)@.with_computation(kind, old(self)@.current_scope()->0)
                },
                Err(e) => e == ReactiveError::NoActiveScope && old(self)@.current_scope() is None
                    && final(self)@ == old(self)@,
            },
    {
        match self.current_scope() {
            None => Err(ReactiveError::NoActiveScope),
            Some(scope) => {
                let id = self.nodes.len();
                self.nodes.push(Node { kind, scope, state: Freshness::Dirty, value: None, version: 0 });
                self.running.push(id);
                let count = self.nodes.len();
                proof {
                    assert(count == id + 1);
                    lemma_with_computation_inv(old(self)@, kind);
                }
                Ok(id)
            },
        }
    }

    /// Creates a memo in the current scope and begins its first evaluation.
    /// The host computes the body, reading through `read`, and ends the
    /// evaluation with `finish_memo`.
    pub fn begin_memo(&mut self) -> (r: Result<ReadSignal, ReactiveError>)
        requires
            old(self).wf(),
        ensures
            final(self).wf(),
            match r {
                Ok(reader) => {
                    &&& old(self)@.current_scope() is Some
                    &&& reader.id == old(self)@.nodes.len()
                    &&& final(self)@ == old(self)@.with_computation(
                        NodeKind::Memo,
                        old(self)@.current_scope()->0,
                    )
                },
                Err(e) => e == ReactiveError::NoActiveScope && old(self)@.current_scope() is None
                    && final(self)@ == old(self)@,
            },
    {
        match self.begin(NodeKind::Memo) {
            Ok(id) => Ok(ReadSignal { id }),
            Err(e) => Err(e),
        }
    }

    /// Creates an effect in the current scope and begins its first run. The
    /// host runs the body, reading through `read`, and ends the run with
    /// `finish_effect`.
    pub fn begin_effect(&mut self) -> (r: Result<EffectHandle, ReactiveError>)
        requires
            old(self).wf(),
        ensures
            final(self).wf(),
            match r {
                Ok(effect) => {
                    &&& old(self)@.current_scope() is Some
                    &&& effect.id == old(self)@.nodes.len()
                    &&& final(self)@ == old(self)@.with_computation(
                        NodeKind::Effect,
                        old(self)@.current_scope()->0,
                    )
                },
                Err(e) => e == ReactiveError::NoActiveScope && old(self)@.current_scope() is None
                    && final(self)@ == old(self)@,
            },
    {
        match self.begin(NodeKind::Effect) {
            Ok(id) => Ok(EffectHandle { id }),
            Err(e) => Err(e),
        }
    }

    /// Reads a signal or memo without subscribing anything to it.
    pub fn read_untracked(&self, reader: ReadSignal) -> (r: Result<Fetched<&T>, ReactiveError>)
        requires
            self.wf(),
        ensures
            by_value(r) == self@.read_result(reader.id),
    {
        let id = reader.id;
        if !self.is_live(id) {
            return Err(ReactiveError::UseAfterDispose);
        }
        if self.nodes[id].kind == NodeKind::Effect {
            return Err(ReactiveError::UseAfterDispose);
        }
        if self.is_running(id) {
            return Err(ReactiveError::CyclicDependency);
        }
        if self.nodes[id].state != Freshness::Clean {
            return Ok(Fetched::Stale);
        }
        match self.nodes[id].value.as_ref() {
            Some(v) => Ok(Fetched::Ready(v)),
            None => {
                proof {
                    assert(self@.nodes[id as int].value is Some);
                }
                Ok(Fetched::Stale)
            },
        }
    }

    /// Reads a signal or memo. When a computation is being evaluated and the
    /// read yields a value, that computation subscribes to what was read.
    ///
    /// A memo that is not up to date yields no value: it is `Stale` until
    /// `refresh` has brought it up to date.
    pub fn read(&mut self, reader: ReadSignal) -> (r: Result<Fetched<&T>, ReactiveError>)
        requires
            old(self).wf(),
        ensures
            final(self).wf(),
            by_value(r) == old(self)@.read_result(reader.id),
            final(self)@ == (if r matches Ok(Fetched::Ready(_)) {
                old(self)@.subscribed(reader.id)
            } else {
                old(self)@
            }),
    {
        let ready = match self.read_untracked(reader) {
            Ok(Fetched::Ready(_)) => true,
            _ => false,
        };
        if ready {
            if let Some(o) = self.observer() {
                if !self.depends(o, reader.id) {
                    self.edges.push(Edge { source: reader.id, subscriber: o });
                }
            }
            proof {
                lemma_subscribed_inv(old(self)@, reader.id);
                assert(self@.read_result(reader.id) == old(self)@.read_result(reader.id));
            }
        }
        self.read_untracked(reader)
    }

    /// Ends the run of the effect that is being evaluated. Returns `false`,
    /// and changes nothing, when the innermost evaluation is not an effect's.
    pub fn finish_effect(&mut self) -> (done: bool)
        requires
            old(self).wf(),
        ensures
            final(self).wf(),
            done == old(self)@.effect_running(),
            final(self)@ == (if done {
                old(self)@.finished_effect()
            } else {
                old(self)@
            }),
    {
        let depth = self.running.len();
        if depth == 0 {
            return false;
        }
        let e = self.running[depth - 1];
        if self.nodes[e].kind != NodeKind::Effect {
            return false;
        }
        self.running.pop();
        if self.is_live(e) {
            self.nodes[e].state = Freshness::Clean;
        }
        proof {
            lemma_finished_effect_inv(old(self)@);
            assert(self@.running =~= old(self)@.finished_effect().running);
            assert(self@.nodes =~= old(self)@.finished_effect().nodes);
        }
        true
    }

    /// Ends the evaluation of the memo that is being evaluated, with the value
    /// that its body computed. Returns `None`, and changes nothing, when the
    /// innermost evaluation is not a memo's; otherwise whether the value
    /// differs from the cached one, in which case every subscriber of the memo
    /// becomes dirty. A memo disposed during its evaluation is left alone.
    pub fn finish_memo(&mut self, value: T) -> (changed: Option<bool>)
        requires
            old(self).wf(),
        ensures
            final(self).wf(),
            match changed {
                Some(c) => {
                    let m = old(self)@.running.last();
                    &&& old(self)@.memo_running()
                    &&& final(self)@ == old(self)@.finished_memo(value, c)
                    &&& !old(self)@.live(m) ==> !c
                    &&& old(self)@.live(m) && old(self)@.value_of(m) is None ==> c
                    &&& old(self)@.live(m) && T::obeys_eq_spec() ==> c == old(self)@.differs(m, value)
                },
                None => !old(self)@.memo_running() && final(self)@ == old(self)@,
            },
    {
        let depth = self.running.len();
        if depth == 0 {
            return None;
        }
        let m = self.running[depth - 1];
        if self.nodes[m].kind != NodeKind::Memo {
            return None;
        }
        self.running.pop();
        assert(self.running@ =~= old(self)@.popped().running);
        if !self.is_live(m) {
            proof {
                lemma_finished_memo_inv(old(self)@, value, false);
            }
            return Some(false);
        }
        let changed = match self.nodes[m].value.as_ref() {
            Some(w) => !(value == *w),
            None => true,
        };
        self.nodes[m].value = Some(value);
        self.nodes[m].state = Freshness::Clean;
        if changed {
            assert(self.nodes@ =~= old(self)@.nodes.update(
                m as int,
                Node { state: Freshness::Clean, value: Some(value), ..old(self)@.nodes[m as int] },
            ));
            proof {
                let pre = old(self)@;
                assert forall|i: int| 0 <= i < pre.edges.len() implies (#[trigger] pre.edges[i]).subscriber
                    < pre.nodes.len() by {
                    assert(pre.live(pre.edges[i].subscriber));
                }
                // the memo is dirty while it runs, so it does not read itself
                assert(pre.running[pre.running.len() - 1] == m);
                if pre.depends(m, m) {
                    let i = choose|i: int| 0 <= i < pre.edges.len() && pre.edges[i] == Edge { source: m, subscriber: m };
                    assert(pre.edges[i].subscriber == m);
                }
            }
            self.mark_subscribers(m);
        }
        proof {
            lemma_finished_memo_inv(old(self)@, value, changed);
            assert(self@.nodes =~= old(self)@.finished_memo(value, changed).nodes);
        }
        Some(changed)
    }

    /// Makes every subscriber of `src` dirty.
    pub(crate) fn mark_subscribers(&mut self, src: usize)
        requires
            forall|i: int| 0 <= i < old(self).edges@.len() ==> (#[trigger] old(self).edges@[i]).subscriber < old(self).nodes@.len(),
        ensures
            final(self).nodes@ == dirtied(old(self).nodes@, old(self).edges@, src),
            final(self).scopes == old(self).scopes,
            final(self).edges == old(self).edges,
            final(self).scope_stack == old(self).scope_stack,
            final(self).running == old(self).running,
            final(self).pending == old(self).pending,
            final(self).batch == old(self).batch,
    {
        let ghost base = self.nodes@;
        let ghost table = self.edges@;
        let count = self.nodes.len();
        let mut k: usize = 0;
        while k < self.edges.len()
            invariant
                k <= self.edges.len(),
                base.len() == count,
                self.edges@ == table,
                forall|i: int| 0 <= i < table.len() ==> (#[trigger] table[i]).subscriber < base.len(),
                self.nodes@ == dirtied(base, table.take(k as int), src),
                self.scopes == old(self).scopes,
                self.edges == old(self).edges,
                self.scope_stack == old(self).scope_stack,
                self.running == old(self).running,
                self.pending == old(self).pending,
                self.batch == old(self).batch,
            decreases self.edges.len() - k,
        {
            let e = self.edges[k];
            proof {
                let before = table.take(k as int);
                let after = table.take(k as int + 1);
                assert(after =~= before.push(e));
                assert(e.subscriber < base.len());
                assert forall|x: usize| linked(after, src, x) <==> linked(before, src, x) || (e.source == src
                    && e.subscriber == x) by {
                    let d = Edge { source: src, subscriber: x };
                    if linked(after, src, x) {
                        let j = choose|j: int| 0 <= j < after.len() && after[j] == d;
                        if j < k {
                            assert(before[j] == d);
                        }
                    }
                    if linked(before, src, x) {
                        let j = choose|j: int| 0 <= j < before.len() && before[j] == d;
                        assert(after[j] == d);
                    }
                    if e.source == src && e.subscriber == x {
                        assert(after[k as int] == d);
                    }
                }
            }
            let ghost mid = self.nodes@;
            if e.source == src {
                self.nodes[e.subscriber].state = Freshness::Dirty;
            }
            proof {
                let next = dirtied(base, table.take(k as int + 1), src);
                assert forall|i: int| 0 <= i < base.len() implies self.nodes@[i] == next[i] by {
                    let x = i as usize;
                    assert(linked(table.take(k as int + 1), src, x) <==> linked(table.take(k as int), src, x)
                        || (e.source == src && e.subscriber == x));
                    assert(mid[i] == dirtied(base, table.take(k as int), src)[i]);
                }
                assert(self.nodes@ =~= next);
            }
            k += 1;
        }
        proof {
            assert(table.take(k as int) =~= table);
        }
    }
}

} // verus!
