//! The scheduler: bringing nodes up to date in dependency order.

use crate::error::ReactiveError;
use crate::handle::{FlushStep, Refresh};
use crate::model::{Edge, Freshness, NodeKind};
use crate::order::{
    lemma_batch_inv,
    lemma_ready_from,
    lemma_ready_iff,
    lemma_settled_inv,
    lemma_started_inv,
    not_read_by,
    other_than,
};
use crate::runtime::Runtime;
use crate::seqs::{lemma_filter_empty, lemma_filter_push};
use vstd::prelude::*;

verus! {

/// `list` without `n`.
pub(crate) fn without(list: &Vec<usize>, n: usize) -> (out: Vec<usize>)
    ensures
        out@ == list@.filter(other_than(n)),
{
    let mut out: Vec<usize> = Vec::new();
    let mut i: usize = 0;
    proof {
        lemma_filter_empty(other_than(n));
        assert(list@.take(0) =~= Seq::<usize>::empty());
    }
    while i < list.len()
        invariant
            i <= list.len(),
            out@ == list@.take(i as int).filter(other_than(n)),
        decreases list.len() - i,
    {
        proof {
            assert(list@.take(i as int + 1) =~= list@.take(i as int).push(list@[i as int]));
            lemma_filter_push(list@.take(i as int), list@[i as int], other_than(n));
        }
        if list[i] != n {
            out.push(list[i]);
        }
        i += 1;
    }
    proof {
        assert(list@.take(i as int) =~= list@);
    }
    out
}

/// `table` without the subscriptions of `n`.
fn unsubscribed(table: &Vec<Edge>, n: usize) -> (out: Vec<Edge>)
    ensures
        out@ == table@.filter(not_read_by(n)),
{
    let mut out: Vec<Edge> = Vec::new();
    let mut i: usize = 0;
    proof {
        lemma_filter_empty(not_read_by(n));
        assert(table@.take(0) =~= Seq::<Edge>::empty());
    }
    while i < table.len()
        invariant
            i <= table.len(),
            out@ == table@.take(i as int).filter(not_read_by(n)),
        decreases table.len() - i,
    {
        proof {
            assert(table@.take(i as int + 1) =~= table@.take(i as int).push(table@[i as int]));
            lemma_filter_push(table@.take(i as int), table@[i as int], not_read_by(n));
        }
        if table[i].subscriber != n {
            out.push(table[i]);
        }
        i += 1;
    }
    proof {
        assert(table@.take(i as int) =~= table@);
    }
    out
}

impl<T: PartialEq> Runtime<T> {
    /// The first dependency of `n` that is not clean.
    pub fn first_stale_source(&self, n: usize) -> (found: Option<usize>)
        requires
            self.wf(),
        ensures
            found == self@.first_stale_source(n),
            found is None <==> self@.sources_clean(n),
    {
        proof {
            lemma_ready_iff(self@, n);
        }
        let mut k: usize = 0;
        while k < self.edges.len()
            invariant
                self.wf(),
                k <= self.edges.len(),
                self@.first_stale_source(n) == self@.stale_source_from(n, k as int),
            decreases self.edges.len() - k,
        {
            let e = self.edges[k];
            proof {
                assert(self@.live(self@.edges[k as int].source));
            }
            if e.subscriber == n && self.nodes[e.source].state != Freshness::Clean {
                return Some(e.source);
            }
            k += 1;
        }
        None
    }

    /// The oldest queued memo (or, for `memo == false`, effect) whose
    /// dependencies are all clean.
    fn ready_scan(&self, memo: bool) -> (found: Option<usize>)
        requires
            self.wf(),
        ensures
            found == self@.ready_from(memo, 0),
    {
        let mut k: usize = 0;
        while k < self.pending.len()
            invariant
                self.wf(),
                k <= self.pending.len(),
                self@.ready_from(memo, 0) == self@.ready_from(memo, k as int),
            decreases self.pending.len() - k,
        {
            let x = self.pending[k];
            proof {
                assert(self@.pending[k as int] < self@.nodes.len());
            }
            if (self.nodes[x].kind == NodeKind::Memo) == memo {
                if self.first_stale_source(x).is_none() {
                    return Some(x);
                }
            }
            k += 1;
        }
        None
    }

    /// Begins the evaluation of `n`.
    fn start(&mut self, n: usize)
        requires
            old(self).wf(),
            old(self)@.live(n),
            !old(self)@.is_running(n),
            old(self)@.state_of(n) == Freshness::Dirty,
        ensures
            final(self).wf(),
            final(self)@ == old(self)@.started(n),
    {
        self.edges = unsubscribed(&self.edges, n);
        self.pending = without(&self.pending, n);
        self.running.push(n);
        proof {
            lemma_started_inv(old(self)@, n);
        }
    }

    /// Marks `n` clean without running it.
    fn settle(&mut self, n: usize)
        requires
            old(self).wf(),
            old(self)@.live(n),
            !old(self)@.is_running(n),
            old(self)@.state_of(n) == Freshness::Stale,
            old(self)@.sources_clean(n),
        ensures
            final(self).wf(),
            final(self)@ == old(self)@.settled(n),
    {
        self.nodes[n].state = Freshness::Clean;
        self.pending = without(&self.pending, n);
        proof {
            lemma_settled_inv(old(self)@, n);
            assert(self@.nodes =~= old(self)@.settled(n).nodes);
        }
    }

    /// Makes one attempt to bring `node` up to date, as a read of a stale
    /// memo requires.
    ///
    /// A clean node is `Fresh`. A node with a dependency that is not clean is
    /// `Blocked` by the first such dependency, which has to be refreshed
    /// first. Otherwise a stale node becomes clean without running, and the
    /// evaluation of a dirty node begins: it forgets its subscriptions and
    /// becomes the observer. A node that is being evaluated cannot be
    /// refreshed: that is a cyclic dependency.
    pub fn refresh(&mut self, node: usize) -> (r: Result<Refresh, ReactiveError>)
        requires
            old(self).wf(),
        ensures
            final(self).wf(),
            r == old(self)@.refresh_result(node),
            final(self)@ == old(self)@.refreshed(node),
    {
        if !self.is_live(node) {
            return Err(ReactiveError::UseAfterDispose);
        }
        if self.is_running(node) {
            return Err(ReactiveError::CyclicDependency);
        }
        if self.nodes[node].state == Freshness::Clean {
            return Ok(Refresh::Fresh);
        }
        match self.first_stale_source(node) {
            Some(s) => Ok(Refresh::Blocked(s)),
            None => {
                if self.nodes[node].state == Freshness::Stale {
                    self.settle(node);
                    Ok(Refresh::Fresh)
                } else {
                    self.start(node);
                    Ok(Refresh::Run(node))
                }
            },
        }
    }

    /// Takes one step of a flush.
    ///
    /// With nothing queued the flush is `Done`. Otherwise the scheduler takes
    /// the oldest queued memo whose dependencies are all clean, or, when no
    /// memo is ready, the oldest such effect. A stale node is `Settled`: it
    /// becomes clean without running. The evaluation of a dirty node begins
    /// (`Run`). When work is queued and none of it is ready, which happens
    /// only to a host that asks in the middle of an evaluation, the step is
    /// refused as a cyclic dependency.
    pub fn flush_next(&mut self) -> (r: Result<FlushStep, ReactiveError>)
        requires
            old(self).wf(),
        ensures
            final(self).wf(),
            r == old(self)@.flush_result(),
            final(self)@ == old(self)@.flushed(),
    {
        if self.pending.len() == 0 {
            return Ok(FlushStep::Done);
        }
        let next = match self.ready_scan(true) {
            Some(x) => Some(x),
            None => self.ready_scan(false),
        };
        proof {
            lemma_ready_from(self@, true, 0);
            lemma_ready_from(self@, false, 0);
        }
        match next {
            None => Err(ReactiveError::CyclicDependency),
            Some(x) => {
                proof {
                    let i = choose|i: int| 0 <= i < self@.pending.len() && self@.pending[i] == x;
                    assert(self@.pending[i] < self@.nodes.len());
                    assert(self@.pending.contains(x));
                }
                if self.nodes[x].state == Freshness::Stale {
                    self.settle(x);
                    Ok(FlushStep::Settled(x))
                } else {
                    self.start(x);
                    Ok(FlushStep::Run(x))
                }
            },
        }
    }

    /// Opens a batch: until it is closed, writes queue work without asking
    /// for a flush.
    pub fn batch_begin(&mut self)
        requires
            old(self).wf(),
            old(self)@.batch < usize::MAX,
        ensures
            final(self).wf(),
            final(self)@ == old(self)@.batch_opened(),
    {
        self.batch = self.batch + 1;
        proof {
            lemma_batch_inv(old(self)@, self.batch);
        }
    }

    /// Closes the innermost batch. Returns whether the caller now has to
    /// drain the scheduler: the last batch was closed, work is queued and
    /// nothing is being evaluated.
    pub fn batch_end(&mut self) -> (flush: bool)
        requires
            old(self).wf(),
        ensures
            final(self).wf(),
            final(self)@ == old(self)@.batch_closed(),
            flush == old(self)@.batch_flush_due(),
    {
        let flush = self.batch == 1 && self.pending.len() > 0 && self.running.len() == 0;
        if self.batch > 0 {
            self.batch = self.batch - 1;
        }
        proof {
            lemma_batch_inv(old(self)@, self.batch);
        }
        flush
    }
}

} // verus!
