//! The keyed list reconciler.

use crate::error::ReactiveError;
use crate::keyed::{
    dropped,
    entries_ok,
    first_seen,
    has_key,
    is_new,
    lemma_dropped_push,
    lemma_first_seen,
    lemma_first_seen_step,
    lemma_has_key_push,
    lemma_owner_outside,
    lemma_placed_push,
    lemma_released_push,
    lemma_with_children_step,
    placed,
    placements,
    plan_of,
    removal,
    removals,
    scopes_of,
    slot_of,
    KeyedEntry,
    PlanOp,
};
use crate::model::Model;
use crate::runtime::Runtime;
use crate::seqs::lemma_filter_empty;
use std::collections::{HashMap, HashSet};
use vstd::prelude::*;
use vstd::std_specs::hash::*;

verus! {

broadcast use group_hash_axioms;

/// A keyed sequence whose items each own a scope in a runtime.
pub struct KeyedList {
    pub(crate) owner: usize,
    pub(crate) entries: Vec<KeyedEntry>,
}

/// The position of each key of `entries`.
fn index_of(entries: &Vec<KeyedEntry>) -> (index: HashMap<u64, usize>)
    requires
        forall|a: int, b: int|
            0 <= a < entries@.len() && 0 <= b < entries@.len() && a != b ==> (#[trigger] entries@[a]).key != (
            #[trigger] entries@[b]).key,
    ensures
        forall|k: u64| #[trigger] index@.contains_key(k) <==> has_key(entries@, k),
        forall|t: int| 0 <= t < entries@.len() ==> index@[(#[trigger] entries@[t]).key] == t,
{
    let mut index: HashMap<u64, usize> = HashMap::new();
    let mut j: usize = 0;
    while j < entries.len()
        invariant
            j <= entries.len(),
            forall|a: int, b: int|
                0 <= a < entries@.len() && 0 <= b < entries@.len() && a != b ==> (#[trigger] entries@[a]).key != (
                #[trigger] entries@[b]).key,
            forall|k: u64| #[trigger] index@.contains_key(k) <==> has_key(entries@.take(j as int), k),
            forall|t: int| 0 <= t < j ==> index@[(#[trigger] entries@[t]).key] == t,
        decreases entries.len() - j,
    {
        let e = entries[j];
        proof {
            assert(entries@.take(j as int + 1) =~= entries@.take(j as int).push(e));
            assert forall|k: u64|
                has_key(entries@.take(j as int + 1), k) <==> has_key(entries@.take(j as int), k) || e.key
                    == k by {
                lemma_has_key_push(entries@.take(j as int), e, k);
            }
        }
        index.insert(e.key, j);
        j += 1;
    }
    proof {
        assert(entries@.take(j as int) =~= entries@);
    }
    index
}

/// The set of `keys`.
fn set_of(keys: &Vec<u64>) -> (set: HashSet<u64>)
    ensures
        forall|k: u64| #[trigger] set@.contains(k) <==> keys@.contains(k),
{
    let mut set: HashSet<u64> = HashSet::new();
    let mut i: usize = 0;
    while i < keys.len()
        invariant
            i <= keys.len(),
            forall|k: u64| #[trigger] set@.contains(k) <==> keys@.take(i as int).contains(k),
        decreases keys.len() - i,
    {
        proof {
            lemma_take_holds(keys@, i as int);
        }
        set.insert(keys[i]);
        i += 1;
    }
    proof {
        assert(keys@.take(i as int) =~= keys@);
    }
    set
}

/// One more element of a sequence is taken.
proof fn lemma_take_holds(keys: Seq<u64>, i: int)
    requires
        0 <= i < keys.len(),
    ensures
        forall|k: u64| #[trigger] keys.take(i + 1).contains(k) <==> keys.take(i).contains(k) || k == keys[i],
{
    let shorter = keys.take(i);
    let longer = keys.take(i + 1);
    assert(longer =~= shorter.push(keys[i]));
    assert forall|k: u64| #[trigger] longer.contains(k) <==> shorter.contains(k) || k == keys[i] by {
        if longer.contains(k) {
            let j = choose|j: int| 0 <= j < longer.len() && longer[j] == k;
            if j < i {
                assert(shorter[j] == k);
            }
        }
        if shorter.contains(k) {
            let j = choose|j: int| 0 <= j < shorter.len() && shorter[j] == k;
            assert(longer[j] == k);
        }
        if k == keys[i] {
            assert(longer[i] == k);
        }
    }
}

impl<T: PartialEq> Runtime<T> {
    /// Disposes `scope` unless it is gone already.
    pub fn release_scope(&mut self, scope: usize)
        requires
            old(self).wf(),
        ensures
            final(self).wf(),
            final(self)@ == old(self)@.released(scope),
    {
        match self.dispose_scope(scope) {
            Ok(()) => {},
            Err(_) => {},
        }
    }
}

/// Disposes the scopes of the entries whose keys are gone and lists their
/// removal.
fn remove_gone<T: PartialEq>(
    rt: &mut Runtime<T>,
    entries: &Vec<KeyedEntry>,
    owner: usize,
    keys: &Vec<u64>,
) -> (plan: Vec<PlanOp>)
    requires
        old(rt).wf(),
        entries_ok(entries@, owner, old(rt)@.scopes),
        old(rt)@.scope_alive(owner),
    ensures
        final(rt).wf(),
        final(rt)@ == old(rt)@.released_all(scopes_of(dropped(entries@, keys@))),
        plan@ == removals(entries@, keys@),
        final(rt)@.scope_alive(owner),
        final(rt)@.scopes.len() == old(rt)@.scopes.len(),
        forall|s: int|
            0 <= s < old(rt)@.scopes.len() ==> (#[trigger] final(rt)@.scopes[s]).parent == old(rt)@.scopes[s].parent,
{
    let ghost pre = rt@;
    let wanted = set_of(keys);
    let mut plan: Vec<PlanOp> = Vec::new();
    let mut j: usize = 0;
    proof {
        assert(entries@.take(0) =~= Seq::<KeyedEntry>::empty());
        lemma_filter_empty(crate::keyed::is_dropped(keys@));
        assert(scopes_of(dropped(entries@.take(0), keys@)) =~= Seq::<usize>::empty());
        assert(plan@ =~= removals(entries@.take(0), keys@));
    }
    while j < entries.len()
        invariant
            j <= entries.len(),
            rt.wf(),
            pre.inv(),
            entries_ok(entries@, owner, pre.scopes),
            forall|k: u64| #[trigger] wanted@.contains(k) <==> keys@.contains(k),
            rt@ == pre.released_all(scopes_of(dropped(entries@.take(j as int), keys@))),
            plan@ == removals(entries@.take(j as int), keys@),
            rt@.scope_alive(owner),
            rt@.scopes.len() == pre.scopes.len(),
            forall|s: int| 0 <= s < pre.scopes.len() ==> (#[trigger] rt@.scopes[s]).parent == pre.scopes[s].parent,
        decreases entries.len() - j,
    {
        let e = entries[j];
        let ghost before = rt@;
        proof {
            assert(entries@.take(j as int + 1) =~= entries@.take(j as int).push(e));
            lemma_dropped_push(entries@.take(j as int), keys@, e);
            lemma_released_push(pre, scopes_of(dropped(entries@.take(j as int), keys@)), e.scope);
            assert(entries@[j as int].scope < pre.scopes.len());
        }
        if !wanted.contains(&e.key) {
            plan.push(PlanOp::Remove { key: e.key, scope: e.scope });
            rt.release_scope(e.scope);
            proof {
                assert(before.scopes[e.scope as int].parent == Some(owner));
                assert(owner < e.scope);
                lemma_owner_outside(before, owner, e.scope);
            }
        }
        j += 1;
    }
    proof {
        assert(entries@.take(j as int) =~= entries@);
    }
    plan
}

impl KeyedList {
    /// The entries, in order.
    pub closed spec fn view(&self) -> Seq<KeyedEntry> {
        self.entries@
    }

    /// The scope under which the items' scopes are created.
    pub closed spec fn owner_scope(&self) -> usize {
        self.owner
    }

    /// The list is sound for the runtime state `m`.
    pub open spec fn wf<T>(&self, m: Model<T>) -> bool {
        entries_ok(self@, self.owner_scope(), m.scopes)
    }

    /// An empty list, with a new scope of its own under the current scope.
    pub fn new<T: PartialEq>(rt: &mut Runtime<T>) -> (list: KeyedList)
        requires
            old(rt).wf(),
        ensures
            final(rt).wf(),
            final(rt)@ == old(rt)@.with_scope(old(rt)@.current_scope()),
            list.owner_scope() == old(rt)@.scopes.len(),
            list@ == Seq::<KeyedEntry>::empty(),
            list.wf(final(rt)@),
    {
        let owner = rt.create_scope();
        let list = KeyedList { owner, entries: Vec::new() };
        assert(list@ =~= Seq::<KeyedEntry>::empty());
        list
    }

    /// The scope under which the items' scopes are created.
    pub fn owner(&self) -> (owner: usize)
        ensures
            owner == self.owner_scope(),
    {
        self.owner
    }

    /// How many items the list holds.
    pub fn len(&self) -> (len: usize)
        ensures
            len == self@.len(),
    {
        self.entries.len()
    }

    /// The item at position `i`, if there is one.
    pub fn entry(&self, i: usize) -> (e: Option<KeyedEntry>)
        ensures
            e == (if i < self@.len() {
                Some(self@[i as int])
            } else {
                None
            }),
    {
        if i < self.entries.len() {
            Some(self.entries[i])
        } else {
            None
        }
    }

    /// The scope of the item with `key`, if the list holds it.
    pub fn scope_of(&self, key: u64) -> (scope: Option<usize>)
        ensures
            match scope {
                Some(s) => self@.contains(KeyedEntry { key, scope: s }),
                None => !has_key(self@, key),
            },
    {
        let mut i: usize = 0;
        while i < self.entries.len()
            invariant
                i <= self.entries.len(),
                forall|j: int| 0 <= j < i ==> (#[trigger] self.entries@[j]).key != key,
            decreases self.entries.len() - i,
        {
            if self.entries[i].key == key {
                proof {
                    assert(self@[i as int] == KeyedEntry { key, scope: self.entries@[i as int].scope });
                }
                return Some(self.entries[i].scope);
            }
            i += 1;
        }
        None
    }

    /// Brings the list to the key order `keys`, of which only the first
    /// occurrence of each key counts.
    ///
    /// An item whose key is kept keeps its scope, and with it its state. An
    /// item whose key is gone has its scope disposed. A key that the list
    /// did not hold gets a new scope under the list's own. The plan lists the
    /// removals first, in the old order, then a reuse or an insert for each
    /// position of the new order.
    ///
    /// Nothing is done when the list's own scope has been disposed.
    pub fn reconcile<T: PartialEq>(&mut self, rt: &mut Runtime<T>, keys: &Vec<u64>) -> (r: Result<
        Vec<PlanOp>,
        ReactiveError,
    >)
        requires
            old(rt).wf(),
            old(self).wf(old(rt)@),
        ensures
            final(rt).wf(),
            final(self).wf(final(rt)@),
            final(self).owner_scope() == old(self).owner_scope(),
            match r {
                Ok(plan) => {
                    let base = old(rt)@.scopes.len();
                    let order = first_seen(keys@);
                    &&& old(rt)@.scope_alive(old(self).owner_scope())
                    &&& final(self)@ == placed(old(self)@, order, base)
                    &&& plan@ == plan_of(old(self)@, keys@, base)
                    &&& final(rt)@ == old(rt)@.released_all(
                        scopes_of(dropped(old(self)@, keys@)),
                    ).with_children(old(self).owner_scope(), order.filter(is_new(old(self)@)).len())
                },
                Err(e) => {
                    &&& e == ReactiveError::UseAfterDispose
                    &&& !old(rt)@.scope_alive(old(self).owner_scope())
                    &&& final(self)@ == old(self)@
                    &&& final(rt)@ == old(rt)@
                },
            },
    {
        if !rt.scope_alive(self.owner) {
            return Err(ReactiveError::UseAfterDispose);
        }
        let ghost pre = rt@;
        let ghost was = self.entries@;
        let owner = self.owner;
        let base = rt.scope_count();
        let index = index_of(&self.entries);
        let mut plan = remove_gone(rt, &self.entries, owner, keys);
        let ghost mid = rt@;
        let ghost gone = plan@;
        let mut done: HashSet<u64> = HashSet::new();
        let mut next: Vec<KeyedEntry> = Vec::new();
        let mut i: usize = 0;
        proof {
            assert(keys@.take(0) =~= Seq::<u64>::empty());
            lemma_filter_empty(is_new(was));
            assert(next@ =~= placed(was, first_seen(keys@.take(0)), base as nat));
            assert(plan@ =~= gone + placements(was, first_seen(keys@.take(0)), base as nat));
        }
        while i < keys.len()
            invariant
                i <= keys.len(),
                rt.wf(),
                pre.inv(),
                self.entries@ == was,
                entries_ok(was, owner, pre.scopes),
                base == pre.scopes.len(),
                forall|k: u64| #[trigger] index@.contains_key(k) <==> has_key(was, k),
                forall|t: int| 0 <= t < was.len() ==> index@[(#[trigger] was[t]).key] == t,
                forall|k: u64| #[trigger] done@.contains(k) <==> keys@.take(i as int).contains(k),
                next@ == placed(was, first_seen(keys@.take(i as int)), base as nat),
                plan@ == gone + placements(was, first_seen(keys@.take(i as int)), base as nat),
                rt@ == mid.with_children(owner, first_seen(keys@.take(i as int)).filter(is_new(was)).len()),
                rt@.scopes.len() == base + first_seen(keys@.take(i as int)).filter(is_new(was)).len(),
                rt@.scope_alive(owner),
                forall|s: int| 0 <= s < base ==> (#[trigger] rt@.scopes[s]).parent == pre.scopes[s].parent,
                forall|s: int| base <= s < rt@.scopes.len() ==> (#[trigger] rt@.scopes[s]).parent == Some(owner),
                forall|t: int| 0 <= t < next@.len() ==> (#[trigger] next@[t]).scope < rt@.scopes.len(),
                forall|t: int|
                    0 <= t < next@.len() ==> (#[trigger] next@[t]).key == first_seen(keys@.take(i as int))[t],
                forall|t: int|
                    0 <= t < next@.len() && (#[trigger] next@[t]).scope < base ==> was.contains(next@[t]),
                forall|t: int, u: int|
                    0 <= t < next@.len() && 0 <= u < next@.len() && t != u ==> (#[trigger] next@[t]).scope != (
                    #[trigger] next@[u]).scope,
            decreases keys.len() - i,
        {
            let key = keys[i];
            let ghost order = first_seen(keys@.take(i as int));
            proof {
                lemma_first_seen_step(keys@, i as int);
                lemma_first_seen(keys@.take(i as int));
                lemma_take_holds(keys@, i as int);
                lemma_placed_push(was, order, base as nat, key);
                lemma_with_children_step(mid, owner, order.filter(is_new(was)).len());
            }
            if done.insert(key) {
                let at = next.len();
                let ghost longer = order.push(key);
                match index.get(&key) {
                    Some(found) => {
                        let j = *found;
                        proof {
                            assert(has_key(was, key));
                            let t = slot_of(was, key);
                            assert(was[t].key == key);
                            assert(index@[was[t].key] == t);
                            assert(j == t);
                            assert(was.contains(was[t]));
                        }
                        let e = self.entries[j];
                        proof {
                            assert(e == was[j as int]);
                            assert(e.scope < base);
                            assert(!order.contains(key));
                            assert forall|u: int| 0 <= u < next@.len() implies next@[u].scope != e.scope by {
                                if next@[u].scope < base {
                                    let it = next@[u];
                                    assert(was.contains(it));
                                    let w = choose|w: int| 0 <= w < was.len() && was[w] == it;
                                    assert(was[w].key == order[u]);
                                    assert(order.contains(order[u]));
                                    assert(w != j);
                                }
                            }
                        }
                        next.push(e);
                        plan.push(PlanOp::Reuse { key: e.key, scope: e.scope, from: j, to: at });
                    },
                    None => {
                        match rt.create_child_scope(owner) {
                            Ok(scope) => {
                                next.push(KeyedEntry { key, scope });
                                plan.push(PlanOp::Insert { key, scope, at });
                            },
                            Err(e) => {
                                return Err(e);
                            },
                        }
                    },
                }
                proof {
                    assert(plan@ =~= gone + placements(was, longer, base as nat));
                }
            }
            i += 1;
        }
        proof {
            assert(keys@.take(i as int) =~= keys@);
            lemma_first_seen(keys@);
        }
        self.entries = next;
        Ok(plan)
    }
}

} // verus!
