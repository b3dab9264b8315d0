//! Facts about filtered sequences that the transition proofs share.

use vstd::prelude::*;

verus! {

/// The ids `0, 1, .., n - 1` in order.
pub open spec fn upto(n: nat) -> Seq<usize> {
    Seq::new(n, |i: int| i as usize)
}

/// The ids up to `n + 1` are those up to `n`, then `n`.
pub proof fn lemma_upto_push(n: nat)
    requires
        n <= usize::MAX,
    ensures
        upto(n + 1) == upto(n).push(n as usize),
{
    assert(upto(n + 1) =~= upto(n).push(n as usize));
}

/// Filtering a sequence with one more element.
pub proof fn lemma_filter_push<A>(s: Seq<A>, x: A, p: spec_fn(A) -> bool)
    ensures
        s.push(x).filter(p) == if p(x) {
            s.filter(p).push(x)
        } else {
            s.filter(p)
        },
{
    reveal(Seq::filter);
    assert(s.push(x).drop_last() =~= s);
}

/// Filtering nothing leaves nothing.
pub proof fn lemma_filter_empty<A>(p: spec_fn(A) -> bool)
    ensures
        Seq::<A>::empty().filter(p) == Seq::<A>::empty(),
{
    reveal(Seq::filter);
}

/// A filtered sequence holds exactly the elements that the test keeps.
pub proof fn lemma_filter_holds<A>(s: Seq<A>, p: spec_fn(A) -> bool)
    ensures
        forall|x: A| #[trigger] s.filter(p).contains(x) <==> s.contains(x) && p(x),
    decreases s.len(),
{
    reveal(Seq::filter);
    if s.len() > 0 {
        let rest = s.drop_last();
        lemma_filter_holds(rest, p);
        assert forall|x: A| #[trigger] s.filter(p).contains(x) <==> s.contains(x) && p(x) by {
            if s.filter(p).contains(x) {
                if p(s.last()) && x == s.last() {
                    assert(s[s.len() - 1] == x);
                } else {
                    if p(s.last()) {
                        let i = choose|i: int| 0 <= i < s.filter(p).len() && s.filter(p)[i] == x;
                        assert(rest.filter(p)[i] == x);
                    }
                    assert(rest.filter(p).contains(x));
                    let j = choose|j: int| 0 <= j < rest.len() && rest[j] == x;
                    assert(s[j] == x);
                }
            }
            if s.contains(x) && p(x) {
                let j = choose|j: int| 0 <= j < s.len() && s[j] == x;
                if j == s.len() - 1 {
                    assert(s.filter(p)[s.filter(p).len() - 1] == x);
                } else {
                    assert(rest[j] == x);
                    assert(rest.filter(p).contains(x));
                    let i = choose|i: int| 0 <= i < rest.filter(p).len() && rest.filter(p)[i] == x;
                    assert(s.filter(p)[i] == x);
                }
            }
        }
    }
}

/// Filtering creates no duplicates.
pub proof fn lemma_filter_distinct<A>(s: Seq<A>, p: spec_fn(A) -> bool)
    requires
        s.no_duplicates(),
    ensures
        s.filter(p).no_duplicates(),
    decreases s.len(),
{
    reveal(Seq::filter);
    if s.len() > 0 {
        let rest = s.drop_last();
        lemma_filter_distinct(rest, p);
        lemma_filter_holds(rest, p);
        if p(s.last()) {
            if rest.filter(p).contains(s.last()) {
                let j = choose|j: int| 0 <= j < rest.len() && rest[j] == s.last();
                assert(s[j] == s[s.len() - 1]);
            }
            let f = s.filter(p);
            assert forall|i: int, j: int| 0 <= i < f.len() && 0 <= j < f.len() && i != j implies f[i] != f[j] by {
                if i == f.len() - 1 {
                    assert(rest.filter(p)[j] == f[j]);
                } else if j == f.len() - 1 {
                    assert(rest.filter(p)[i] == f[i]);
                } else {
                    assert(rest.filter(p)[i] == f[i]);
                    assert(rest.filter(p)[j] == f[j]);
                }
            }
        }
    }
}

/// How many entries of `s` are set.
pub open spec fn count_set(s: Seq<bool>) -> nat
    decreases s.len(),
{
    if s.len() == 0 {
        0
    } else {
        count_set(s.drop_last()) + if s.last() {
            1nat
        } else {
            0nat
        }
    }
}

/// No more entries are set than there are.
pub proof fn lemma_count_bound(s: Seq<bool>)
    ensures
        count_set(s) <= s.len(),
    decreases s.len(),
{
    if s.len() > 0 {
        lemma_count_bound(s.drop_last());
    }
}

/// Where no entry is set, the count is zero.
pub proof fn lemma_count_clear(s: Seq<bool>)
    requires
        forall|i: int| 0 <= i < s.len() ==> !s[i],
    ensures
        count_set(s) == 0,
    decreases s.len(),
{
    if s.len() > 0 {
        lemma_count_clear(s.drop_last());
    }
}

/// Setting a clear entry raises the count by one.
pub proof fn lemma_count_grows(s: Seq<bool>, i: int)
    requires
        0 <= i < s.len(),
        !s[i],
    ensures
        count_set(s.update(i, true)) == count_set(s) + 1,
    decreases s.len(),
{
    let t = s.update(i, true);
    if i == s.len() - 1 {
        assert(t.drop_last() =~= s.drop_last());
    } else {
        lemma_count_grows(s.drop_last(), i);
        assert(t.drop_last() =~= s.drop_last().update(i, true));
    }
}

/// Filtering keeps the kept elements in their order.
pub proof fn lemma_filter_order<A>(s: Seq<A>, p: spec_fn(A) -> bool, i: int, j: int) -> (at: (int, int))
    requires
        0 <= i < j < s.len(),
        p(s[i]),
        p(s[j]),
    ensures
        0 <= at.0 < at.1 < s.filter(p).len(),
        s.filter(p)[at.0] == s[i],
        s.filter(p)[at.1] == s[j],
    decreases s.len(),
{
    reveal(Seq::filter);
    let rest = s.drop_last();
    let kept = rest.filter(p);
    if j == s.len() - 1 {
        lemma_filter_holds(rest, p);
        assert(rest[i] == s[i]);
        assert(rest.contains(s[i]));
        assert(kept.contains(s[i]));
        let a = choose|a: int| 0 <= a < kept.len() && kept[a] == s[i];
        (a, kept.len() as int)
    } else {
        let at = lemma_filter_order(rest, p, i, j);
        at
    }
}

} // verus!
