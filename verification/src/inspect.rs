//! Looking at the state of a runtime without changing it.

use crate::model::{Edge, Freshness, Model, NodeKind};
use crate::runtime::Runtime;
use crate::seqs::{lemma_filter_empty, lemma_filter_push};
use vstd::prelude::*;

verus! {

/// The test for a subscription to `source`.
pub open spec fn reads_from(source: usize) -> spec_fn(Edge) -> bool {
    |e: Edge| e.source == source
}

/// The test for a subscription of `subscriber`.
pub open spec fn read_by(subscriber: usize) -> spec_fn(Edge) -> bool {
    |e: Edge| e.subscriber == subscriber
}

impl<T> Model<T> {
    /// The subscribers of `source`, in the order in which they subscribed.
    pub open spec fn subscribers_of(self, source: usize) -> Seq<usize> {
        self.edges.filter(reads_from(source)).map_values(|e: Edge| e.subscriber)
    }

    /// What `subscriber` read during its last run, in the order of the reads.
    pub open spec fn sources_of(self, subscriber: usize) -> Seq<usize> {
        self.edges.filter(read_by(subscriber)).map_values(|e: Edge| e.source)
    }
}

impl<T: PartialEq> Runtime<T> {
    /// What node `id` is, if it exists.
    pub fn kind(&self, id: usize) -> (kind: Option<NodeKind>)
        ensures
            kind == (if id < self@.nodes.len() {
                Some(self@.kind_of(id))
            } else {
                None
            }),
    {
        if id < self.nodes.len() {
            Some(self.nodes[id].kind)
        } else {
            None
        }
    }

    /// How far node `id` is up to date, if it exists.
    pub fn state(&self, id: usize) -> (state: Option<Freshness>)
        ensures
            state == (if id < self@.nodes.len() {
                Some(self@.state_of(id))
            } else {
                None
            }),
    {
        if id < self.nodes.len() {
            Some(self.nodes[id].state)
        } else {
            None
        }
    }

    /// The value that node `id` holds, whether or not it is up to date.
    pub fn cached(&self, id: usize) -> (value: Option<&T>)
        ensures
            match value {
                Some(v) => id < self@.nodes.len() && self@.value_of(id) == Some(*v),
                None => id >= self@.nodes.len() || self@.value_of(id) is None,
            },
    {
        if id < self.nodes.len() {
            self.nodes[id].value.as_ref()
        } else {
            None
        }
    }

    /// How often node `id` was written, if it exists.
    pub fn version(&self, id: usize) -> (version: Option<u64>)
        ensures
            version == (if id < self@.nodes.len() {
                Some(self@.nodes[id as int].version)
            } else {
                None
            }),
    {
        if id < self.nodes.len() {
            Some(self.nodes[id].version)
        } else {
            None
        }
    }

    /// The scope that owns node `id`, if the node exists.
    pub fn owner_of(&self, id: usize) -> (scope: Option<usize>)
        ensures
            scope == (if id < self@.nodes.len() {
                Some(self@.nodes[id as int].scope)
            } else {
                None
            }),
    {
        if id < self.nodes.len() {
            Some(self.nodes[id].scope)
        } else {
            None
        }
    }

    /// The parent of scope `scope`; `None` for a root scope and for a scope
    /// that does not exist.
    pub fn parent_of(&self, scope: usize) -> (parent: Option<usize>)
        ensures
            parent == (if scope < self@.scopes.len() {
                self@.scopes[scope as int].parent
            } else {
                None
            }),
    {
        if scope < self.scopes.len() {
            self.scopes[scope].parent
        } else {
            None
        }
    }

    /// Whether any computation waits for the scheduler.
    pub fn has_pending(&self) -> (waiting: bool)
        ensures
            waiting == (self@.pending.len() > 0),
    {
        self.pending.len() > 0
    }

    /// The computations that wait for the scheduler, oldest first.
    pub fn pending(&self) -> (queue: Vec<usize>)
        ensures
            queue@ == self@.pending,
    {
        let mut queue: Vec<usize> = Vec::new();
        let mut i: usize = 0;
        while i < self.pending.len()
            invariant
                i <= self.pending.len(),
                queue@ == self.pending@.take(i as int),
            decreases self.pending.len() - i,
        {
            queue.push(self.pending[i]);
            proof {
                assert(self.pending@.take(i as int + 1) =~= self.pending@.take(i as int).push(
                    self.pending@[i as int],
                ));
            }
            i += 1;
        }
        proof {
            assert(self.pending@.take(i as int) =~= self.pending@);
        }
        queue
    }

    /// How many evaluations are in progress, one inside the other.
    pub fn depth(&self) -> (depth: usize)
        ensures
            depth == self@.running.len(),
    {
        self.running.len()
    }

    /// How many batches are open.
    pub fn batch_depth(&self) -> (depth: usize)
        ensures
            depth == self@.batch,
    {
        self.batch
    }

    /// The subscribers of `source`, in the order in which they subscribed.
    pub fn subscribers(&self, source: usize) -> (list: Vec<usize>)
        ensures
            list@ == self@.subscribers_of(source),
    {
        let mut list: Vec<usize> = Vec::new();
        let mut i: usize = 0;
        proof {
            lemma_filter_empty(reads_from(source));
            assert(self.edges@.take(0) =~= Seq::<Edge>::empty());
            assert(list@ =~= self.edges@.take(0).filter(reads_from(source)).map_values(|e: Edge| e.subscriber));
        }
        while i < self.edges.len()
            invariant
                i <= self.edges.len(),
                list@ == self.edges@.take(i as int).filter(reads_from(source)).map_values(
                    |e: Edge| e.subscriber,
                ),
            decreases self.edges.len() - i,
        {
            let e = self.edges[i];
            proof {
                let before = self.edges@.take(i as int);
                assert(self.edges@.take(i as int + 1) =~= before.push(e));
                lemma_filter_push(before, e, reads_from(source));
                if e.source == source {
                    assert(before.filter(reads_from(source)).push(e).map_values(|e: Edge| e.subscriber)
                        =~= before.filter(reads_from(source)).map_values(|e: Edge| e.subscriber).push(
                        e.subscriber,
                    ));
                }
            }
            if e.source == source {
                list.push(e.subscriber);
            }
            i += 1;
        }
        proof {
            assert(self.edges@.take(i as int) =~= self.edges@);
        }
        list
    }

    /// What `subscriber` read during its last run, in the order of the reads.
    pub fn sources(&self, subscriber: usize) -> (list: Vec<usize>)
        ensures
            list@ == self@.sources_of(subscriber),
    {
        let mut list: Vec<usize> = Vec::new();
        let mut i: usize = 0;
        proof {
            lemma_filter_empty(read_by(subscriber));
            assert(self.edges@.take(0) =~= Seq::<Edge>::empty());
            assert(list@ =~= self.edges@.take(0).filter(read_by(subscriber)).map_values(|e: Edge| e.source));
        }
        while i < self.edges.len()
            invariant
                i <= self.edges.len(),
                list@ == self.edges@.take(i as int).filter(read_by(subscriber)).map_values(|e: Edge| e.source),
            decreases self.edges.len() - i,
        {
            let e = self.edges[i];
            proof {
                let before = self.edges@.take(i as int);
                assert(self.edges@.take(i as int + 1) =~= before.push(e));
                lemma_filter_push(before, e, read_by(subscriber));
                if e.subscriber == subscriber {
                    assert(before.filter(read_by(subscriber)).push(e).map_values(|e: Edge| e.source)
                        =~= before.filter(read_by(subscriber)).map_values(|e: Edge| e.source).push(e.source));
                }
            }
            if e.subscriber == subscriber {
                list.push(e.source);
            }
            i += 1;
        }
        proof {
            assert(self.edges@.take(i as int) =~= self.edges@);
        }
        list
    }
}

} // verus!
