//! Keys for the items of a keyed list.

use crate::seqs::{lemma_filter_empty, lemma_filter_push};
use vstd::prelude::*;

verus! {

/// Hands out keys in increasing order, none twice.
pub struct IdAllocator {
    next: u64,
}

/// The test for a key other than `key`.
pub open spec fn key_other_than(key: u64) -> spec_fn(u64) -> bool {
    |k: u64| k != key
}

impl IdAllocator {
    /// The key that is handed out next.
    pub closed spec fn view(&self) -> u64 {
        self.next
    }

    /// An allocator whose first key is `start`.
    pub fn new(start: u64) -> (ids: IdAllocator)
        ensures
            ids@ == start,
    {
        IdAllocator { next: start }
    }

    /// The key that is handed out next.
    pub fn peek(&self) -> (key: u64)
        ensures
            key == self@,
    {
        self.next
    }

    /// Hands out one key.
    pub fn allocate(&mut self) -> (key: u64)
        requires
            old(self)@ < u64::MAX,
        ensures
            key == old(self)@,
            final(self)@ == old(self)@ + 1,
    {
        let key = self.next;
        self.next = self.next + 1;
        key
    }

    /// Hands out `count` keys, in order.
    pub fn allocate_many(&mut self, count: usize) -> (keys: Vec<u64>)
        requires
            old(self)@ + count <= u64::MAX,
        ensures
            final(self)@ == old(self)@ + count,
            keys@.len() == count,
            forall|i: int| 0 <= i < count ==> keys@[i] == old(self)@ + i,
    {
        let mut keys: Vec<u64> = Vec::new();
        let mut i: usize = 0;
        while i < count
            invariant
                i <= count,
                old(self)@ + count <= u64::MAX,
                self@ == old(self)@ + i,
                keys@.len() == i,
                forall|j: int| 0 <= j < i ==> keys@[j] == old(self)@ + j,
            decreases count - i,
        {
            let key = self.allocate();
            keys.push(key);
            i += 1;
        }
        keys
    }
}

/// The key order `keys` without `key`.
pub fn remove_key(keys: &Vec<u64>, key: u64) -> (kept: Vec<u64>)
    ensures
        kept@ == keys@.filter(key_other_than(key)),
{
    let mut kept: Vec<u64> = Vec::new();
    let mut i: usize = 0;
    proof {
        lemma_filter_empty(key_other_than(key));
        assert(keys@.take(0) =~= Seq::<u64>::empty());
    }
    while i < keys.len()
        invariant
            i <= keys.len(),
            kept@ == keys@.take(i as int).filter(key_other_than(key)),
        decreases keys.len() - i,
    {
        proof {
            assert(keys@.take(i as int + 1) =~= keys@.take(i as int).push(keys@[i as int]));
            lemma_filter_push(keys@.take(i as int), keys@[i as int], key_other_than(key));
        }
        if keys[i] != key {
            kept.push(keys[i]);
        }
        i += 1;
    }
    proof {
        assert(keys@.take(i as int) =~= keys@);
    }
    kept
}

} // verus!
