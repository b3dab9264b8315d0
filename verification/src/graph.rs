//! Paths through the subscription table.

use crate::model::Edge;
use vstd::prelude::*;

verus! {

/// `b` subscribes to `a`.
pub open spec fn linked(edges: Seq<Edge>, a: usize, b: usize) -> bool {
    edges.contains(Edge { source: a, subscriber: b })
}

/// Step `i` of `p` follows a subscription.
pub open spec fn hop(edges: Seq<Edge>, p: Seq<usize>, i: int) -> bool {
    linked(edges, p[i], p[i + 1])
}

/// `p` leads from `a` to `b`, each node subscribing to the one before it.
pub open spec fn route(edges: Seq<Edge>, p: Seq<usize>, a: usize, b: usize) -> bool {
    &&& p.len() >= 1
    &&& p[0] == a
    &&& p[p.len() - 1] == b
    &&& forall|i: int| 0 <= i < p.len() - 1 ==> #[trigger] hop(edges, p, i)
}

/// `b` is `a` itself or depends on `a`, directly or through other nodes.
pub open spec fn reaches(edges: Seq<Edge>, a: usize, b: usize) -> bool {
    exists|p: Seq<usize>| #[trigger] route(edges, p, a, b)
}

/// Every node reaches itself.
pub proof fn lemma_reaches_self(edges: Seq<Edge>, a: usize)
    ensures
        reaches(edges, a, a),
{
    assert(route(edges, seq![a], a, a));
}

/// A path goes on along a subscription.
pub proof fn lemma_reaches_step(edges: Seq<Edge>, a: usize, b: usize, c: usize)
    requires
        reaches(edges, a, b),
        linked(edges, b, c),
    ensures
        reaches(edges, a, c),
{
    let p = choose|p: Seq<usize>| #[trigger] route(edges, p, a, b);
    let q = p.push(c);
    assert forall|i: int| 0 <= i < q.len() - 1 implies #[trigger] hop(edges, q, i) by {
        if i < p.len() - 1 {
            assert(hop(edges, p, i));
        }
    }
    assert(route(edges, q, a, c));
}

/// A node reaches its subscribers.
pub proof fn lemma_linked_reaches(edges: Seq<Edge>, a: usize, b: usize)
    requires
        linked(edges, a, b),
    ensures
        reaches(edges, a, b),
{
    lemma_reaches_self(edges, a);
    lemma_reaches_step(edges, a, a, b);
}

/// A set that holds `a` and is closed under subscription holds everything
/// that `a` reaches.
pub proof fn lemma_closed_holds_reach(edges: Seq<Edge>, inside: spec_fn(usize) -> bool, a: usize, b: usize)
    requires
        inside(a),
        forall|i: int|
            0 <= i < edges.len() && inside((#[trigger] edges[i]).source) ==> inside(edges[i].subscriber),
        reaches(edges, a, b),
    ensures
        inside(b),
{
    let p = choose|p: Seq<usize>| #[trigger] route(edges, p, a, b);
    lemma_route_inside(edges, inside, p, a, b, p.len() - 1);
}

/// Every node of a path that starts inside a closed set is inside it.
proof fn lemma_route_inside(
    edges: Seq<Edge>,
    inside: spec_fn(usize) -> bool,
    p: Seq<usize>,
    a: usize,
    b: usize,
    k: int,
)
    requires
        inside(a),
        forall|i: int|
            0 <= i < edges.len() && inside((#[trigger] edges[i]).source) ==> inside(edges[i].subscriber),
        route(edges, p, a, b),
        0 <= k < p.len(),
    ensures
        inside(p[k]),
    decreases k,
{
    if k > 0 {
        lemma_route_inside(edges, inside, p, a, b, k - 1);
        assert(hop(edges, p, k - 1));
        let e = Edge { source: p[k - 1], subscriber: p[k] };
        let i = choose|i: int| 0 <= i < edges.len() && edges[i] == e;
        assert(inside(edges[i].source));
    }
}

/// Whatever `a` reaches besides itself subscribes to something that `a`
/// reaches.
pub proof fn lemma_reaches_last_hop(edges: Seq<Edge>, a: usize, b: usize) -> (c: usize)
    requires
        reaches(edges, a, b),
        a != b,
    ensures
        reaches(edges, a, c),
        linked(edges, c, b),
{
    let p = choose|p: Seq<usize>| #[trigger] route(edges, p, a, b);
    assert(p.len() >= 2);
    let q = p.drop_last();
    assert(hop(edges, p, p.len() - 2));
    assert forall|i: int| 0 <= i < q.len() - 1 implies #[trigger] hop(edges, q, i) by {
        assert(hop(edges, p, i));
    }
    assert(route(edges, q, a, p[p.len() - 2]));
    p[p.len() - 2]
}

/// `rank` grows along every subscription.
pub open spec fn ranked(edges: Seq<Edge>, rank: spec_fn(usize) -> nat) -> bool {
    forall|i: int| 0 <= i < edges.len() ==> rank((#[trigger] edges[i]).source) < rank(edges[i].subscriber)
}

/// No node depends on itself, directly or through other nodes.
pub open spec fn acyclic(edges: Seq<Edge>) -> bool {
    exists|rank: spec_fn(usize) -> nat| #[trigger] ranked(edges, rank)
}

/// The empty table has no cycle.
pub proof fn lemma_acyclic_empty()
    ensures
        acyclic(Seq::<Edge>::empty()),
{
    assert(ranked(Seq::<Edge>::empty(), |x: usize| 0nat));
}

/// Taking subscriptions away creates no cycle.
pub proof fn lemma_acyclic_subtable(big: Seq<Edge>, small: Seq<Edge>)
    requires
        acyclic(big),
        forall|i: int| 0 <= i < small.len() ==> big.contains(#[trigger] small[i]),
    ensures
        acyclic(small),
{
    let rank = choose|rank: spec_fn(usize) -> nat| #[trigger] ranked(big, rank);
    assert forall|i: int| 0 <= i < small.len() implies rank((#[trigger] small[i]).source) < rank(
        small[i].subscriber,
    ) by {
        assert(big.contains(small[i]));
        let j = choose|j: int| 0 <= j < big.len() && big[j] == small[i];
        assert(rank(big[j].source) < rank(big[j].subscriber));
    }
    assert(ranked(small, rank));
}

/// A subscription to something that does not depend on the subscriber
/// creates no cycle.
pub proof fn lemma_acyclic_push(edges: Seq<Edge>, e: Edge)
    requires
        acyclic(edges),
        !reaches(edges, e.subscriber, e.source),
    ensures
        acyclic(edges.push(e)),
{
    let rank = choose|rank: spec_fn(usize) -> nat| #[trigger] ranked(edges, rank);
    let lift = rank(e.source) + 1;
    let raised = |x: usize|
        if reaches(edges, e.subscriber, x) {
            (rank(x) + lift) as nat
        } else {
            rank(x)
        };
    let longer = edges.push(e);
    lemma_reaches_self(edges, e.subscriber);
    assert forall|i: int| 0 <= i < longer.len() implies raised((#[trigger] longer[i]).source) < raised(
        longer[i].subscriber,
    ) by {
        if i < edges.len() {
            let d = edges[i];
            assert(rank(d.source) < rank(d.subscriber));
            if reaches(edges, e.subscriber, d.source) {
                assert(edges.contains(d));
                assert(linked(edges, d.source, d.subscriber));
                lemma_reaches_step(edges, e.subscriber, d.source, d.subscriber);
            }
        }
    }
    assert(ranked(longer, raised));
}

/// Along a path the rank does not fall.
pub proof fn lemma_rank_along(edges: Seq<Edge>, rank: spec_fn(usize) -> nat, a: usize, b: usize)
    requires
        ranked(edges, rank),
        reaches(edges, a, b),
    ensures
        rank(a) <= rank(b),
{
    let above = |x: usize| rank(a) <= rank(x);
    assert forall|i: int| 0 <= i < edges.len() && above((#[trigger] edges[i]).source) implies above(
        edges[i].subscriber,
    ) by {
        assert(rank(edges[i].source) < rank(edges[i].subscriber));
    }
    lemma_closed_holds_reach(edges, above, a, b);
}

/// Where there are no cycles, nothing is upstream of what it subscribes to.
pub proof fn lemma_no_way_back(edges: Seq<Edge>, a: usize, b: usize)
    requires
        acyclic(edges),
        linked(edges, a, b),
    ensures
        !reaches(edges, b, a),
{
    let rank = choose|rank: spec_fn(usize) -> nat| #[trigger] ranked(edges, rank);
    let i = choose|i: int| 0 <= i < edges.len() && edges[i] == Edge { source: a, subscriber: b };
    assert(rank(edges[i].source) < rank(edges[i].subscriber));
    if reaches(edges, b, a) {
        lemma_rank_along(edges, rank, b, a);
    }
}

} // verus!
