//! Writing to signals.

use crate::error::ReactiveError;
use crate::graph::{lemma_closed_holds_reach, lemma_reaches_self, lemma_reaches_step, reaches};
use crate::handle::WriteSignal;
use crate::invalidate::{dirtied, lemma_written_inv};
use crate::model::{Freshness, Node, NodeKind};
use crate::runtime::Runtime;
use crate::seqs::{
    count_set,
    lemma_count_bound,
    lemma_count_clear,
    lemma_count_grows,
    lemma_filter_empty,
    lemma_filter_push,
    lemma_upto_push,
    upto,
};
use vstd::prelude::*;

verus! {

impl<T: PartialEq> Runtime<T> {
    /// Marks every node that `start` reaches through subscriptions.
    pub(crate) fn downstream(&self, start: usize) -> (seen: Vec<bool>)
        requires
            self.wf(),
            start < self@.nodes.len(),
        ensures
            seen@.len() == self@.nodes.len(),
            forall|n: usize| n < seen@.len() ==> (seen@[n as int] <==> reaches(self@.edges, start, n)),
    {
        let count = self.nodes.len();
        let mut seen: Vec<bool> = Vec::new();
        let mut i: usize = 0;
        while i < count
            invariant
                i <= count,
                seen@.len() == i,
                forall|j: int| 0 <= j < i ==> !seen@[j],
            decreases count - i,
        {
            seen.push(false);
            i += 1;
        }
        proof {
            lemma_count_clear(seen@);
            lemma_count_grows(seen@, start as int);
            lemma_reaches_self(self@.edges, start);
        }
        seen.set(start, true);
        let mut found: usize = 1;
        loop
            invariant
                self.wf(),
                count == self@.nodes.len(),
                start < count,
                seen@.len() == count,
                found == count_set(seen@),
                seen@[start as int],
                forall|n: usize| n < count && seen@[n as int] ==> reaches(self@.edges, start, n),
            ensures
                forall|j: int|
                    0 <= j < self@.edges.len() && seen@[(#[trigger] self@.edges[j]).source as int]
                        ==> seen@[self@.edges[j].subscriber as int],
            decreases count - found,
        {
            let ghost found_before = found;
            let mut grew = false;
            let mut k: usize = 0;
            while k < self.edges.len()
                invariant
                    self.wf(),
                    count == self@.nodes.len(),
                    start < count,
                    k <= self.edges.len(),
                    seen@.len() == count,
                    found == count_set(seen@),
                    found >= found_before,
                    grew ==> found > found_before,
                    seen@[start as int],
                    forall|n: usize| n < count && seen@[n as int] ==> reaches(self@.edges, start, n),
                    !grew ==> forall|j: int|
                        0 <= j < k && seen@[(#[trigger] self@.edges[j]).source as int]
                            ==> seen@[self@.edges[j].subscriber as int],
                decreases self.edges.len() - k,
            {
                let e = self.edges[k];
                proof {
                    assert(self@.edges[k as int] == e);
                    assert(self@.live(e.source) && self@.live(e.subscriber));
                }
                if seen[e.source] && !seen[e.subscriber] {
                    proof {
                        lemma_count_grows(seen@, e.subscriber as int);
                        lemma_count_bound(seen@.update(e.subscriber as int, true));
                        lemma_reaches_step(self@.edges, start, e.source, e.subscriber);
                    }
                    seen.set(e.subscriber, true);
                    found += 1;
                    grew = true;
                }
                k += 1;
            }
            proof {
                lemma_count_bound(seen@);
            }
            if !grew {
                break;
            }
        }
        proof {
            let inside = |x: usize| x < count && seen@[x as int];
            assert forall|n: usize| n < count && reaches(self@.edges, start, n) implies seen@[n as int] by {
                assert forall|j: int|
                    0 <= j < self@.edges.len() && inside((#[trigger] self@.edges[j]).source) implies inside(
                    self@.edges[j].subscriber,
                ) by {
                    assert(self@.live(self@.edges[j].subscriber));
                }
                assert(inside(start));
                lemma_closed_holds_reach(self@.edges, inside, start, n);
            }
        }
        seen
    }

    /// Decides whether a write to `id` is accepted, and finds what it
    /// invalidates.
    fn write_check(&self, id: usize) -> (r: Result<Vec<bool>, ReactiveError>)
        requires
            self.wf(),
        ensures
            match r {
                Ok(seen) => {
                    &&& self@.write_error(id) is None
                    &&& seen@.len() == self@.nodes.len()
                    &&& forall|n: usize|
                        n < seen@.len() ==> (seen@[n as int] <==> reaches(self@.edges, id, n))
                },
                Err(e) => self@.write_error(id) == Some(e),
            },
    {
        if !self.is_live(id) {
            return Err(ReactiveError::UseAfterDispose);
        }
        if self.nodes[id].kind != NodeKind::Signal {
            return Err(ReactiveError::UseAfterDispose);
        }
        let seen = self.downstream(id);
        let mut i: usize = 0;
        while i < self.running.len()
            invariant
                self.wf(),
                self@.live_signal(id),
                i <= self.running.len(),
                seen@.len() == self@.nodes.len(),
                forall|n: usize| n < seen@.len() ==> (seen@[n as int] <==> reaches(self@.edges, id, n)),
                forall|j: int| 0 <= j < i ==> !self@.touches(id, #[trigger] self@.running[j]),
            decreases self.running.len() - i,
        {
            let r = self.running[i];
            proof {
                assert(self@.running[i as int] == r);
            }
            if r != id && seen[r] {
                proof {
                    assert(self@.touches(id, self@.running[i as int]));
                }
                return Err(ReactiveError::CyclicDependency);
            }
            i += 1;
        }
        Ok(seen)
    }

    /// Performs a write that `write_check` accepted.
    fn write_apply(&mut self, id: usize, value: T, seen: Vec<bool>) -> (flush: bool)
        requires
            old(self).wf(),
            old(self)@.write_error(id) is None,
            old(self)@.nodes[id as int].version < u64::MAX,
            seen@.len() == old(self)@.nodes.len(),
            forall|n: usize| n < seen@.len() ==> (seen@[n as int] <==> reaches(old(self)@.edges, id, n)),
        ensures
            final(self).wf(),
            final(self)@ == old(self)@.written(id, value),
            flush == old(self)@.flush_due(final(self)@),
    {
        let ghost pre = self@;
        let ghost keep = pre.clean_downstream(id);
        let idle = self.pending.len() == 0 && self.batch == 0 && self.running.len() == 0;
        let count = self.nodes.len();
        let mut i: usize = 0;
        proof {
            lemma_filter_empty(keep);
            assert(upto(0) =~= Seq::<usize>::empty());
            assert(self.pending@ =~= pre.pending + upto(0).filter(keep));
        }
        while i < count
            invariant
                i <= count,
                count == pre.nodes.len(),
                pre.inv(),
                keep == pre.clean_downstream(id),
                seen@.len() == count,
                forall|n: usize| n < seen@.len() ==> (seen@[n as int] <==> reaches(pre.edges, id, n)),
                self.nodes@.len() == count,
                forall|j: int|
                    0 <= j < count ==> #[trigger] self.nodes@[j] == (if j < i && keep(j as usize) {
                        Node { state: Freshness::Stale, ..pre.nodes[j] }
                    } else {
                        pre.nodes[j]
                    }),
                self.pending@ == pre.pending + upto(i as nat).filter(keep),
                self.scopes@ == pre.scopes,
                self.edges@ == pre.edges,
                self.scope_stack@ == pre.scope_stack,
                self.running@ == pre.running,
                self.batch == pre.batch,
            decreases count - i,
        {
            proof {
                lemma_upto_push(i as nat);
                lemma_filter_push(upto(i as nat), i, keep);
            }
            if seen[i] && i != id && self.nodes[i].state == Freshness::Clean {
                self.nodes[i].state = Freshness::Stale;
                self.pending.push(i);
                proof {
                    assert(keep(i));
                    assert(self.pending@ =~= pre.pending + upto(i as nat + 1).filter(keep));
                }
            } else {
                proof {
                    assert(!keep(i));
                }
            }
            i += 1;
        }
        proof {
            assert forall|j: int| 0 <= j < self.edges@.len() implies (#[trigger] self.edges@[j]).subscriber
                < self.nodes@.len() by {
                assert(pre.live(pre.edges[j].subscriber));
            }
        }
        let ghost staled = self.nodes@;
        self.mark_subscribers(id);
        let version = self.nodes[id].version;
        self.nodes[id].value = Some(value);
        self.nodes[id].version = version + 1;
        proof {
            lemma_written_inv(pre, id, value);
            let target = pre.written(id, value);
            assert forall|j: int| 0 <= j < count implies self.nodes@[j] == target.nodes[j] by {
                let x = j as usize;
                assert(dirtied(staled, pre.edges, id)[j] == if pre.depends(x, id) {
                    Node { state: Freshness::Dirty, ..staled[j] }
                } else {
                    staled[j]
                });
                assert(staled[j] == if keep(x) {
                    Node { state: Freshness::Stale, ..pre.nodes[j] }
                } else {
                    pre.nodes[j]
                });
                assert(pre.invalidated(id).nodes[j] == pre.invalidated_row(id, j));
            }
            assert(self.nodes@ =~= target.nodes);
            assert(self.pending@ =~= target.pending);
        }
        idle && self.pending.len() > 0
    }

    /// Stores `value` in a signal. Every direct subscriber becomes dirty and
    /// everything further downstream becomes stale; all of them are queued.
    /// Nothing is recomputed here. Returns whether the caller now has to
    /// drain the scheduler.
    ///
    /// The write is refused, and changes nothing, when the handle names no
    /// live signal or when a computation that is being evaluated depends on
    /// the signal.
    pub fn write(&mut self, writer: WriteSignal, value: T) -> (r: Result<bool, ReactiveError>)
        requires
            old(self).wf(),
            old(self)@.live_signal(writer.id) ==> old(self)@.nodes[writer.id as int].version < u64::MAX,
        ensures
            final(self).wf(),
            match r {
                Ok(flush) => {
                    &&& old(self)@.write_error(writer.id) is None
                    &&& final(self)@ == old(self)@.written(writer.id, value)
                    &&& flush == old(self)@.flush_due(final(self)@)
                },
                Err(e) => old(self)@.write_error(writer.id) == Some(e) && final(self)@ == old(self)@,
            },
    {
        match self.write_check(writer.id) {
            Err(e) => Err(e),
            Ok(seen) => Ok(self.write_apply(writer.id, value, seen)),
        }
    }

    /// Replaces the value of a signal by what `f` makes of it, as a write
    /// does.
    pub fn update<F: FnOnce(&T) -> T>(&mut self, writer: WriteSignal, f: F) -> (r: Result<
        bool,
        ReactiveError,
    >)
        requires
            old(self).wf(),
            old(self)@.live_signal(writer.id) ==> old(self)@.nodes[writer.id as int].version < u64::MAX,
            old(self)@.write_error(writer.id) is None ==> call_requires(
                f,
                (&old(self)@.value_of(writer.id)->0,),
            ),
        ensures
            final(self).wf(),
            match r {
                Ok(flush) => {
                    let v = final(self)@.value_of(writer.id)->0;
                    &&& old(self)@.write_error(writer.id) is None
                    &&& call_ensures(f, (&old(self)@.value_of(writer.id)->0,), v)
                    &&& final(self)@ == old(self)@.written(writer.id, v)
                    &&& flush == old(self)@.flush_due(final(self)@)
                },
                Err(e) => old(self)@.write_error(writer.id) == Some(e) && final(self)@ == old(self)@,
            },
    {
        match self.write_check(writer.id) {
            Err(e) => Err(e),
            Ok(seen) => {
                match self.nodes[writer.id].value.as_ref() {
                    Some(current) => {
                        let next = f(current);
                        Ok(self.write_apply(writer.id, next, seen))
                    },
                    None => {
                        proof {
                            assert(self@.nodes[writer.id as int].value is Some);
                        }
                        Err(ReactiveError::UseAfterDispose)
                    },
                }
            },
        }
    }
}

} // verus!
