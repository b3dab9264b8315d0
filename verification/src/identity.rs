//! Reconciliation preserves identity: what a kept key owns survives
//! untouched, what a dropped key owns is disposed.

use crate::keyed::{
    dropped, entries_ok, first_seen, has_key, is_dropped, is_new, lemma_first_seen, lemma_owner_outside,
    lemma_siblings_apart, lemma_slot_of, placed, scopes_of, KeyedEntry,
};
use crate::model::{Edge, Model};
use crate::scope::lemma_disposed_inv;
use crate::seqs::lemma_filter_holds;
use crate::steps::lemma_with_scope_inv;
use vstd::prelude::*;

verus! {

/// The runtime state after a list with `entries` under `owner` was brought to
/// the key order `keys`.
pub open spec fn reconciled<T>(m: Model<T>, entries: Seq<KeyedEntry>, owner: usize, keys: Seq<u64>) -> Model<T> {
    m.released_all(scopes_of(dropped(entries, keys))).with_children(
        owner,
        first_seen(keys).filter(is_new(entries)).len(),
    )
}

/// Lying within a scope depends on the parents alone.
pub proof fn lemma_within_same<T>(m: Model<T>, a: Model<T>, s: usize, root: usize)
    requires
        a.scopes.len() >= m.scopes.len(),
        forall|i: int| 0 <= i < m.scopes.len() ==> (#[trigger] a.scopes[i]).parent == m.scopes[i].parent,
        s < m.scopes.len(),
    ensures
        a.within(s, root) == m.within(s, root),
    decreases s,
{
    if s != root {
        match m.scopes[s as int].parent {
            Some(p) => {
                if p < s {
                    lemma_within_same(m, a, p, root);
                }
            },
            None => {},
        }
    }
}

/// A live scope lies only within live scopes.
pub proof fn lemma_alive_within<T>(m: Model<T>, s: usize, root: usize)
    requires
        m.scopes_ok(),
        m.within(s, root),
        m.scope_alive(s),
    ensures
        m.scope_alive(root),
    decreases s,
{
    if s != root {
        lemma_alive_within(m, m.scopes[s as int].parent->0, root);
    }
}

/// What disposing several scopes, one after the other, leaves.
pub proof fn lemma_released_all<T>(m: Model<T>, gone: Seq<usize>)
    requires
        m.inv(),
    ensures
        ({
            let a = m.released_all(gone);
            &&& a.inv()
            &&& a.nodes == m.nodes
            &&& a.running == m.running
            &&& a.scope_stack == m.scope_stack
            &&& a.batch == m.batch
            &&& a.scopes.len() == m.scopes.len()
            &&& forall|s: int| 0 <= s < m.scopes.len() ==> (#[trigger] a.scopes[s]).parent == m.scopes[s].parent
            &&& forall|s: usize|
                s < m.scopes.len() ==> (#[trigger] a.scope_alive(s) <==> m.scope_alive(s) && forall|i: int|
                    0 <= i < gone.len() ==> !m.within(s, #[trigger] gone[i]))
            &&& forall|e: Edge| #[trigger]
                a.edges.contains(e) <==> m.edges.contains(e) && a.live(e.source) && a.live(e.subscriber)
        }),
    decreases gone.len(),
{
    let a = m.released_all(gone);
    if gone.len() == 0 {
        assert forall|e: Edge| #[trigger]
            a.edges.contains(e) <==> m.edges.contains(e) && a.live(e.source) && a.live(e.subscriber) by {
            if m.edges.contains(e) {
                let i = choose|i: int| 0 <= i < m.edges.len() && m.edges[i] == e;
                assert(m.live(m.edges[i].source));
            }
        }
    } else {
        let rest = gone.drop_last();
        let last = gone.last();
        let b = m.released_all(rest);
        lemma_released_all(m, rest);
        lemma_disposed_inv(b, last);
        lemma_filter_holds(b.edges, b.edge_survives(last));
        assert forall|s: usize| s < m.scopes.len() implies (#[trigger] a.scope_alive(s) <==> m.scope_alive(s)
            && forall|i: int| 0 <= i < gone.len() ==> !m.within(s, #[trigger] gone[i])) by {
            lemma_within_same(m, b, s, last);
            assert(b.scope_alive(s) <==> m.scope_alive(s) && forall|i: int|
                0 <= i < rest.len() ==> !m.within(s, #[trigger] rest[i]));
            assert(forall|i: int| 0 <= i < rest.len() ==> rest[i] == gone[i]);
            if b.scope_alive(last) {
                assert(a.scopes[s as int].alive == (b.scopes[s as int].alive && !b.within(s, last)));
            } else {
                if b.scope_alive(s) && b.within(s, last) {
                    lemma_alive_within(b, s, last);
                }
            }
            if a.scope_alive(s) {
                assert forall|i: int| 0 <= i < gone.len() implies !m.within(s, #[trigger] gone[i]) by {
                    if i < rest.len() {
                        assert(rest[i] == gone[i]);
                    }
                }
            }
            if m.scope_alive(s) && (forall|i: int| 0 <= i < gone.len() ==> !m.within(s, #[trigger] gone[i])) {
                assert(!m.within(s, gone[gone.len() - 1]));
                assert forall|i: int| 0 <= i < rest.len() implies !m.within(s, #[trigger] rest[i]) by {
                    assert(rest[i] == gone[i]);
                }
            }
        }
        assert forall|e: Edge| #[trigger]
            a.edges.contains(e) <==> m.edges.contains(e) && a.live(e.source) && a.live(e.subscriber) by {
            assert(b.edges.contains(e) <==> m.edges.contains(e) && b.live(e.source) && b.live(e.subscriber));
            if b.scope_alive(last) {
                assert(a.live(e.source) <==> b.survives(last, e.source));
                assert(a.live(e.subscriber) <==> b.survives(last, e.subscriber));
            }
        }
    }
}

/// What creating several scopes under one owner leaves.
pub proof fn lemma_with_children<T>(m: Model<T>, owner: usize, count: nat)
    requires
        m.inv(),
        m.scope_alive(owner),
        m.scopes.len() + count <= usize::MAX,
    ensures
        ({
            let a = m.with_children(owner, count);
            &&& a.inv()
            &&& a.nodes == m.nodes
            &&& a.edges == m.edges
            &&& a.running == m.running
            &&& a.pending == m.pending
            &&& a.scope_stack == m.scope_stack
            &&& a.batch == m.batch
            &&& a.scopes.len() == m.scopes.len() + count
            &&& forall|s: int| 0 <= s < m.scopes.len() ==> #[trigger] a.scopes[s] == m.scopes[s]
        }),
    decreases count,
{
    if count > 0 {
        let b = m.with_children(owner, (count - 1) as nat);
        lemma_with_children(m, owner, (count - 1) as nat);
        assert(b.scopes[owner as int] == m.scopes[owner as int]);
        lemma_with_scope_inv(b, Some(owner));
    }
}

/// An item whose key is kept is the same item afterwards: it has its scope,
/// and every node that its scope owns, directly or through scopes below it,
/// is as live as it was and holds what it held. No subscription between
/// nodes that are still live is lost.
pub proof fn lemma_kept_item_keeps_state<T>(
    m: Model<T>,
    entries: Seq<KeyedEntry>,
    owner: usize,
    keys: Seq<u64>,
    i: int,
    n: usize,
)
    requires
        m.inv(),
        entries_ok(entries, owner, m.scopes),
        m.scope_alive(owner),
        m.scopes.len() + keys.len() <= usize::MAX,
        0 <= i < entries.len(),
        keys.contains(entries[i].key),
        n < m.nodes.len(),
        m.within(m.nodes[n as int].scope, entries[i].scope),
    ensures
        placed(entries, first_seen(keys), m.scopes.len()).contains(entries[i]),
        reconciled(m, entries, owner, keys).nodes == m.nodes,
        reconciled(m, entries, owner, keys).live(n) == m.live(n),
        forall|e: Edge|
            m.edges.contains(e) && reconciled(m, entries, owner, keys).live(e.source) && reconciled(
                m,
                entries,
                owner,
                keys,
            ).live(e.subscriber) ==> #[trigger] reconciled(m, entries, owner, keys).edges.contains(e),
{
    let order = first_seen(keys);
    let gone = scopes_of(dropped(entries, keys));
    let b = m.released_all(gone);
    let count = order.filter(is_new(entries)).len();
    let a = reconciled(m, entries, owner, keys);
    let keep = entries[i].scope;
    lemma_first_seen(keys);
    order.lemma_filter_len(is_new(entries));
    lemma_released_all(m, gone);
    lemma_filter_holds(entries, is_dropped(keys));
    // the owner outlives the items
    assert forall|j: int| 0 <= j < gone.len() implies !m.within(owner, #[trigger] gone[j]) && !m.within(
        m.nodes[n as int].scope,
        gone[j],
    ) by {
        let d = dropped(entries, keys)[j];
        assert(dropped(entries, keys).contains(d));
        let w = choose|w: int| 0 <= w < entries.len() && entries[w] == d;
        assert(entries[w].scope == gone[j]);
        assert(w != i);
        assert(m.scopes[gone[j] as int].parent == Some(owner));
        lemma_owner_outside(m, owner, gone[j]);
        assert(m.scopes[keep as int].parent == Some(owner));
        lemma_siblings_apart(m, m.nodes[n as int].scope, keep, gone[j], owner);
    }
    assert(b.scope_alive(owner));
    lemma_with_children(b, owner, count);
    assert(m.nodes[n as int].scope < m.scopes.len());
    assert(a.scopes[m.nodes[n as int].scope as int] == b.scopes[m.nodes[n as int].scope as int]);
    assert(b.scope_alive(m.nodes[n as int].scope) <==> m.scope_alive(m.nodes[n as int].scope));
    // the item is placed where its key stands
    assert(order.contains(entries[i].key));
    let t = choose|t: int| 0 <= t < order.len() && order[t] == entries[i].key;
    lemma_slot_of(entries, i);
    assert(placed(entries, order, m.scopes.len())[t] == entries[i]);
    assert forall|e: Edge| m.edges.contains(e) && a.live(e.source) && a.live(e.subscriber) implies #[trigger] a.edges.contains(
        e,
    ) by {
        let x = choose|x: int| 0 <= x < m.edges.len() && m.edges[x] == e;
        assert(m.live(m.edges[x].source) && m.live(m.edges[x].subscriber));
        let from = m.nodes[e.source as int].scope as int;
        let to = m.nodes[e.subscriber as int].scope as int;
        assert(a.scopes[from] == b.scopes[from]);
        assert(a.scopes[to] == b.scopes[to]);
        assert(b.live(e.source) && b.live(e.subscriber));
    }
}

/// An item whose key is gone is disposed: its scope is dead, and so is every
/// node that its scope owns, directly or through scopes below it. The new
/// sequence does not hold its key.
pub proof fn lemma_dropped_item_is_disposed<T>(
    m: Model<T>,
    entries: Seq<KeyedEntry>,
    owner: usize,
    keys: Seq<u64>,
    i: int,
    n: usize,
)
    requires
        m.inv(),
        entries_ok(entries, owner, m.scopes),
        m.scope_alive(owner),
        m.scopes.len() + keys.len() <= usize::MAX,
        0 <= i < entries.len(),
        !keys.contains(entries[i].key),
        n < m.nodes.len(),
        m.within(m.nodes[n as int].scope, entries[i].scope),
    ensures
        !reconciled(m, entries, owner, keys).scope_alive(entries[i].scope),
        !reconciled(m, entries, owner, keys).live(n),
        !has_key(placed(entries, first_seen(keys), m.scopes.len()), entries[i].key),
{
    let order = first_seen(keys);
    let gone = scopes_of(dropped(entries, keys));
    let b = m.released_all(gone);
    let count = order.filter(is_new(entries)).len();
    let a = reconciled(m, entries, owner, keys);
    let lost = entries[i].scope;
    lemma_first_seen(keys);
    order.lemma_filter_len(is_new(entries));
    lemma_released_all(m, gone);
    lemma_filter_holds(entries, is_dropped(keys));
    assert(entries.contains(entries[i]));
    assert(dropped(entries, keys).contains(entries[i]));
    let j = choose|j: int| 0 <= j < dropped(entries, keys).len() && dropped(entries, keys)[j] == entries[i];
    assert(gone[j] == lost);
    assert forall|k: int| 0 <= k < gone.len() implies !m.within(owner, #[trigger] gone[k]) by {
        let d = dropped(entries, keys)[k];
        assert(dropped(entries, keys).contains(d));
        let w = choose|w: int| 0 <= w < entries.len() && entries[w] == d;
        assert(entries[w].scope == gone[k]);
        lemma_owner_outside(m, owner, gone[k]);
    }
    assert(b.scope_alive(owner));
    lemma_with_children(b, owner, count);
    assert(m.within(lost, gone[j]));
    assert(!b.scope_alive(lost));
    assert(a.scopes[lost as int] == b.scopes[lost as int]);
    let home = m.nodes[n as int].scope;
    assert(home < m.scopes.len());
    assert(m.within(home, gone[j]));
    assert(!b.scope_alive(home));
    assert(a.scopes[home as int] == b.scopes[home as int]);
    let p = placed(entries, order, m.scopes.len());
    if has_key(p, entries[i].key) {
        let t = choose|t: int| 0 <= t < p.len() && (#[trigger] p[t]).key == entries[i].key;
        if has_key(entries, order[t]) {
            let s = crate::keyed::slot_of(entries, order[t]);
            assert(entries[s].key == order[t]);
        }
        assert(p[t].key == order[t]);
        assert(order.contains(order[t]));
    }
}

} // verus!
