//! Keyed sequences: what reconciling an old snapshot with a new key order
//! yields, as mathematics.

use crate::model::{Model, ScopeRecord};
use crate::seqs::lemma_filter_push;
use vstd::prelude::*;

verus! {

/// One item of a keyed sequence: its key and the scope that owns its state.
#[derive(Clone, Copy, Debug, PartialEq, Eq, Structural)]
pub struct KeyedEntry {
    pub key: u64,
    pub scope: usize,
}

/// One instruction for the host that keeps a materialised copy of the
/// sequence.
#[derive(Clone, Copy, Debug, PartialEq, Eq, Structural)]
pub enum PlanOp {
    /// The item with this key is gone; its scope has been disposed.
    Remove { key: u64, scope: usize },
    /// The item that stood at `from` stands at `to`, with its state as it
    /// was.
    Reuse { key: u64, scope: usize, from: usize, to: usize },
    /// A new item stands at `at`, with a new scope for its state.
    Insert { key: u64, scope: usize, at: usize },
}

/// An entry of `entries` has the key `key`.
pub open spec fn has_key(entries: Seq<KeyedEntry>, key: u64) -> bool {
    exists|i: int| 0 <= i < entries.len() && (#[trigger] entries[i]).key == key
}

/// Where the entry with `key` stands.
pub open spec fn slot_of(entries: Seq<KeyedEntry>, key: u64) -> int {
    choose|i: int| 0 <= i < entries.len() && (#[trigger] entries[i]).key == key
}

/// The keys in the order of their first occurrence.
pub open spec fn first_seen(keys: Seq<u64>) -> Seq<u64>
    decreases keys.len(),
{
    if keys.len() == 0 {
        keys
    } else {
        let before = first_seen(keys.drop_last());
        if before.contains(keys.last()) {
            before
        } else {
            before.push(keys.last())
        }
    }
}

/// The test for a key that `entries` does not hold.
pub open spec fn is_new(entries: Seq<KeyedEntry>) -> spec_fn(u64) -> bool {
    |k: u64| !has_key(entries, k)
}

/// The test for an entry whose key is not among `keys`.
pub open spec fn is_dropped(keys: Seq<u64>) -> spec_fn(KeyedEntry) -> bool {
    |e: KeyedEntry| !keys.contains(e.key)
}

/// The entries whose keys are not among `keys`, in their old order.
pub open spec fn dropped(entries: Seq<KeyedEntry>, keys: Seq<u64>) -> Seq<KeyedEntry> {
    entries.filter(is_dropped(keys))
}

/// The scopes of `entries`, in order.
pub open spec fn scopes_of(entries: Seq<KeyedEntry>) -> Seq<usize> {
    entries.map_values(|e: KeyedEntry| e.scope)
}

/// How many of the first `i` keys of `order` are new.
pub open spec fn fresh_before(entries: Seq<KeyedEntry>, order: Seq<u64>, i: int) -> nat {
    order.take(i).filter(is_new(entries)).len()
}

/// The entry at position `i` of the new sequence: the old entry of that key
/// where there is one, else a new entry whose scope is the next unused id
/// from `base` on.
pub open spec fn placed_entry(entries: Seq<KeyedEntry>, order: Seq<u64>, base: nat, i: int) -> KeyedEntry {
    if has_key(entries, order[i]) {
        entries[slot_of(entries, order[i])]
    } else {
        KeyedEntry { key: order[i], scope: (base + fresh_before(entries, order, i)) as usize }
    }
}

/// The new sequence for the keys `order`, none of which occurs twice.
pub open spec fn placed(entries: Seq<KeyedEntry>, order: Seq<u64>, base: nat) -> Seq<KeyedEntry> {
    Seq::new(order.len(), |i: int| placed_entry(entries, order, base, i))
}

/// The instruction that removes `e`.
pub open spec fn removal(e: KeyedEntry) -> PlanOp {
    PlanOp::Remove { key: e.key, scope: e.scope }
}

/// The instruction for position `i` of the new sequence.
pub open spec fn placement(entries: Seq<KeyedEntry>, order: Seq<u64>, base: nat, i: int) -> PlanOp {
    let e = placed_entry(entries, order, base, i);
    if has_key(entries, order[i]) {
        PlanOp::Reuse { key: e.key, scope: e.scope, from: slot_of(entries, order[i]) as usize, to: i as usize }
    } else {
        PlanOp::Insert { key: e.key, scope: e.scope, at: i as usize }
    }
}

/// The removals, in the old order.
pub open spec fn removals(entries: Seq<KeyedEntry>, keys: Seq<u64>) -> Seq<PlanOp> {
    dropped(entries, keys).map_values(|e: KeyedEntry| removal(e))
}

/// One reuse or insert for each position of the new sequence.
pub open spec fn placements(entries: Seq<KeyedEntry>, order: Seq<u64>, base: nat) -> Seq<PlanOp> {
    Seq::new(order.len(), |i: int| placement(entries, order, base, i))
}

/// The plan: first the removals, in the old order, then one reuse or insert
/// for each position of the new sequence, in the new order.
pub open spec fn plan_of(entries: Seq<KeyedEntry>, keys: Seq<u64>, base: nat) -> Seq<PlanOp> {
    removals(entries, keys) + placements(entries, first_seen(keys), base)
}

/// A snapshot is sound for a scope table when every entry has a scope of its
/// own directly under `owner`, and no key occurs twice.
pub open spec fn entries_ok(entries: Seq<KeyedEntry>, owner: usize, scopes: Seq<ScopeRecord>) -> bool {
    &&& owner < scopes.len()
    &&& forall|i: int|
        0 <= i < entries.len() ==> (#[trigger] entries[i]).scope < scopes.len()
            && scopes[entries[i].scope as int].parent == Some(owner)
    &&& forall|i: int, j: int|
        0 <= i < entries.len() && 0 <= j < entries.len() && i != j ==> (#[trigger] entries[i]).key
            != (#[trigger] entries[j]).key && entries[i].scope != entries[j].scope
}

impl<T> Model<T> {
    /// Scope `s` is disposed, unless it is gone already.
    pub open spec fn released(self, s: usize) -> Self {
        if self.scope_alive(s) {
            self.disposed(s)
        } else {
            self
        }
    }

    /// The scopes `gone` are disposed one after the other.
    pub open spec fn released_all(self, gone: Seq<usize>) -> Self
        decreases gone.len(),
    {
        if gone.len() == 0 {
            self
        } else {
            self.released_all(gone.drop_last()).released(gone.last())
        }
    }

    /// `count` new live scopes under `owner`.
    pub open spec fn with_children(self, owner: usize, count: nat) -> Self
        decreases count,
    {
        if count == 0 {
            self
        } else {
            self.with_children(owner, (count - 1) as nat).with_scope(Some(owner))
        }
    }
}

/// `first_seen` holds the same keys, each once.
pub proof fn lemma_first_seen(keys: Seq<u64>)
    ensures
        first_seen(keys).no_duplicates(),
        first_seen(keys).len() <= keys.len(),
        forall|k: u64| #[trigger] first_seen(keys).contains(k) <==> keys.contains(k),
    decreases keys.len(),
{
    if keys.len() > 0 {
        let rest = keys.drop_last();
        let before = first_seen(rest);
        lemma_first_seen(rest);
        assert forall|k: u64| #[trigger] first_seen(keys).contains(k) <==> keys.contains(k) by {
            if keys.contains(k) {
                let i = choose|i: int| 0 <= i < keys.len() && keys[i] == k;
                if i < rest.len() {
                    assert(rest[i] == k);
                    assert(before.contains(k));
                    let j = choose|j: int| 0 <= j < before.len() && before[j] == k;
                    assert(first_seen(keys)[j] == k);
                } else if !before.contains(k) {
                    assert(first_seen(keys)[before.len() as int] == k);
                }
            }
            if first_seen(keys).contains(k) {
                let j = choose|j: int| 0 <= j < first_seen(keys).len() && first_seen(keys)[j] == k;
                if j < before.len() {
                    assert(before[j] == k);
                    assert(before.contains(k));
                    let i = choose|i: int| 0 <= i < rest.len() && rest[i] == k;
                    assert(keys[i] == k);
                } else {
                    assert(keys[keys.len() - 1] == k);
                }
            }
        }
    }
}

/// One more key is looked at: it is appended unless it was seen before.
pub proof fn lemma_first_seen_step(keys: Seq<u64>, i: int)
    requires
        0 <= i < keys.len(),
    ensures
        first_seen(keys.take(i + 1)) == if keys.take(i).contains(keys[i]) {
            first_seen(keys.take(i))
        } else {
            first_seen(keys.take(i)).push(keys[i])
        },
{
    assert(keys.take(i + 1).drop_last() =~= keys.take(i));
    lemma_first_seen(keys.take(i));
}

/// Where keys are distinct, the entry at `i` is the one that its key finds.
pub proof fn lemma_slot_of(entries: Seq<KeyedEntry>, i: int)
    requires
        0 <= i < entries.len(),
        forall|a: int, b: int|
            0 <= a < entries.len() && 0 <= b < entries.len() && a != b ==> (#[trigger] entries[a]).key != (
            #[trigger] entries[b]).key,
    ensures
        has_key(entries, entries[i].key),
        slot_of(entries, entries[i].key) == i,
{
    assert(entries[i].key == entries[i].key);
}

/// Placing one more key leaves the entries placed so far as they are.
pub proof fn lemma_placed_push(entries: Seq<KeyedEntry>, order: Seq<u64>, base: nat, key: u64)
    ensures
        placed(entries, order.push(key), base) == placed(entries, order, base).push(
            placed_entry(entries, order.push(key), base, order.len() as int),
        ),
        placements(entries, order.push(key), base) == placements(entries, order, base).push(
            placement(entries, order.push(key), base, order.len() as int),
        ),
        fresh_before(entries, order.push(key), order.len() as int) == order.filter(is_new(entries)).len(),
        order.push(key).filter(is_new(entries)).len() == order.filter(is_new(entries)).len() + if has_key(
            entries,
            key,
        ) {
            0nat
        } else {
            1nat
        },
{
    let longer = order.push(key);
    assert forall|i: int| 0 <= i <= order.len() implies #[trigger] longer.take(i) == order.take(i) by {
        assert(longer.take(i) =~= order.take(i));
    }
    assert(order.take(order.len() as int) =~= order);
    assert forall|i: int| 0 <= i < order.len() implies placed_entry(entries, longer, base, i) == placed_entry(
        entries,
        order,
        base,
        i,
    ) by {
        assert(longer.take(i) == order.take(i));
    }
    assert(placed(entries, longer, base) =~= placed(entries, order, base).push(
        placed_entry(entries, longer, base, order.len() as int),
    ));
    assert forall|i: int| 0 <= i < order.len() implies placement(entries, longer, base, i) == placement(
        entries,
        order,
        base,
        i,
    ) by {
        assert(longer.take(i) == order.take(i));
    }
    assert(placements(entries, longer, base) =~= placements(entries, order, base).push(
        placement(entries, longer, base, order.len() as int),
    ));
    lemma_filter_push(order, key, is_new(entries));
}

/// One more old entry is looked at: it is dropped unless its key is kept.
pub proof fn lemma_dropped_push(entries: Seq<KeyedEntry>, keys: Seq<u64>, e: KeyedEntry)
    ensures
        dropped(entries.push(e), keys) == if keys.contains(e.key) {
            dropped(entries, keys)
        } else {
            dropped(entries, keys).push(e)
        },
        removals(entries.push(e), keys) == if keys.contains(e.key) {
            removals(entries, keys)
        } else {
            removals(entries, keys).push(removal(e))
        },
        scopes_of(dropped(entries.push(e), keys)) == if keys.contains(e.key) {
            scopes_of(dropped(entries, keys))
        } else {
            scopes_of(dropped(entries, keys)).push(e.scope)
        },
{
    lemma_filter_push(entries, e, is_dropped(keys));
    if !keys.contains(e.key) {
        assert(removals(entries.push(e), keys) =~= removals(entries, keys).push(removal(e)));
        assert(scopes_of(dropped(entries.push(e), keys)) =~= scopes_of(dropped(entries, keys)).push(e.scope));
    }
}

/// Disposing one more scope comes after disposing the others.
pub proof fn lemma_released_push<T>(m: Model<T>, gone: Seq<usize>, s: usize)
    ensures
        m.released_all(gone.push(s)) == m.released_all(gone).released(s),
{
    assert(gone.push(s).drop_last() =~= gone);
}

/// What lies within a scope has an id at least as large.
pub proof fn lemma_within_above<T>(m: Model<T>, s: usize, root: usize)
    requires
        m.within(s, root),
    ensures
        s >= root,
    decreases s,
{
    if s != root {
        lemma_within_above(m, m.scopes[s as int].parent->0, root);
    }
}

/// Two different scopes under one parent have nothing in common.
pub proof fn lemma_siblings_apart<T>(m: Model<T>, x: usize, a: usize, b: usize, owner: usize)
    requires
        a != b,
        owner < a < m.scopes.len(),
        owner < b < m.scopes.len(),
        m.scopes[a as int].parent == Some(owner),
        m.scopes[b as int].parent == Some(owner),
        m.within(x, a),
    ensures
        !m.within(x, b),
    decreases x,
{
    if m.within(x, b) {
        if x == a {
            lemma_owner_outside(m, owner, b);
        } else if x == b {
            lemma_owner_outside(m, owner, a);
        } else {
            lemma_siblings_apart(m, m.scopes[x as int].parent->0, a, b, owner);
        }
    }
}

/// A scope does not lie within its own child.
pub proof fn lemma_owner_outside<T>(m: Model<T>, owner: usize, child: usize)
    requires
        child < m.scopes.len(),
        m.scopes[child as int].parent == Some(owner),
        owner < child,
    ensures
        !m.within(owner, child),
{
    if m.within(owner, child) {
        lemma_within_above(m, owner, child);
    }
}

/// A longer sequence holds the keys of the shorter one and the new key.
pub proof fn lemma_has_key_push(entries: Seq<KeyedEntry>, e: KeyedEntry, key: u64)
    ensures
        has_key(entries.push(e), key) <==> has_key(entries, key) || e.key == key,
{
    let longer = entries.push(e);
    if has_key(longer, key) {
        let i = choose|i: int| 0 <= i < longer.len() && (#[trigger] longer[i]).key == key;
        if i < entries.len() {
            assert(entries[i].key == key);
        }
    }
    if has_key(entries, key) {
        let i = choose|i: int| 0 <= i < entries.len() && (#[trigger] entries[i]).key == key;
        assert(longer[i].key == key);
    }
    if e.key == key {
        assert(longer[entries.len() as int].key == key);
    }
}

/// One more scope under the owner comes after the others.
pub proof fn lemma_with_children_step<T>(m: Model<T>, owner: usize, count: nat)
    ensures
        m.with_children(owner, count + 1) == m.with_children(owner, count).with_scope(Some(owner)),
{
    assert((count + 1 - 1) as nat == count);
}

/// A snapshot stays sound while the scope table only grows and no scope
/// changes its parent: whatever else the runtime does in between.
pub proof fn lemma_entries_ok_stable(
    entries: Seq<KeyedEntry>,
    owner: usize,
    before: Seq<ScopeRecord>,
    after: Seq<ScopeRecord>,
)
    requires
        entries_ok(entries, owner, before),
        before.len() <= after.len(),
        forall|i: int| 0 <= i < before.len() ==> (#[trigger] after[i]).parent == before[i].parent,
    ensures
        entries_ok(entries, owner, after),
{
}

} // verus!
