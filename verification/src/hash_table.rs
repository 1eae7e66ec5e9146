//! A small key–value table. Entries live in one flat association
//! list scanned by key equality; a pair is stored once, and a lookup
//! returns the value of the earliest pair with the key.

use vstd::prelude::*;

verus! {

use crate::order::lawful_eq;
use crate::order::lemma_lawful_eq;

/// Key–value store keyed by value equality.
///
/// `capacity` is kept as bookkeeping only; it never changes after
/// construction.
pub struct HashTable<K, V> {
    capacity: usize,
    store: Vec<(K, V)>,
}

impl<K: PartialEq + Clone, V: Clone + PartialEq> HashTable<K, V> {
    /// The stored pairs, oldest first.
    pub closed spec fn pairs(&self) -> Seq<(K, V)> {
        self.store@
    }

    /// An empty table.
    pub fn new() -> (r: Self)
        ensures
            r.pairs() == Seq::<(K, V)>::empty(),
    {
        HashTable { capacity: 0, store: Vec::new() }
    }

    /// Stores the pair `(k, v)` unless an equal pair is already held.
    pub fn insert(&mut self, k: K, v: V)
        requires
            lawful_eq::<K>(),
            lawful_eq::<V>(),
            old(self).pairs().len() < usize::MAX,
        ensures
            (exists|i: int|
                0 <= i < old(self).pairs().len() && old(self).pairs()[i].0 == k && old(
                    self,
                ).pairs()[i].1 == v) ==> final(self).pairs() == old(self).pairs(),
            !(exists|i: int|
                0 <= i < old(self).pairs().len() && old(self).pairs()[i].0 == k && old(
                    self,
                ).pairs()[i].1 == v) ==> final(self).pairs() == old(self).pairs().push((k, v)),
    {
        proof {
            lemma_lawful_eq::<K>();
            lemma_lawful_eq::<V>();
        }
        let store = &self.store;
        let mut i: usize = 0;
        let mut found = false;
        while i < store.len()
            invariant
                lawful_eq::<K>(),
                lawful_eq::<V>(),
                store@ == old(self).store@,
                i <= store@.len(),
                found == (exists|j: int|
                    0 <= j < i && store@[j].0 == k && store@[j].1 == v),
            decreases store@.len() - i,
        {
            proof {
                lemma_lawful_eq::<K>();
                lemma_lawful_eq::<V>();
            }
            if store[i].0.eq(&k) && store[i].1.eq(&v) {
                found = true;
                proof {
                    assert(store@[i as int].0 == k && store@[i as int].1 == v);
                }
            }
            i = i + 1;
        }
        if !found {
            self.store.push((k, v));
        }
    }

    /// Looks `k` up: returns the value of the first stored pair whose
    /// key equals `k`, or nothing when no pair has that key.
    pub fn get(&mut self, k: K) -> (r: Option<&V>)
        requires
            lawful_eq::<K>(),
        ensures
            *final(self) == *old(self),
            match r {
                Some(val) => exists|i: int|
                    {
                        &&& 0 <= i < old(self).pairs().len()
                        &&& old(self).pairs()[i].0 == k
                        &&& *val == old(self).pairs()[i].1
                        &&& forall|j: int| 0 <= j < i ==> old(self).pairs()[j].0 != k
                    },
                None => forall|i: int|
                    0 <= i < old(self).pairs().len() ==> old(self).pairs()[i].0 != k,
            },
    {
        proof {
            lemma_lawful_eq::<K>();
        }
        let store = &self.store;
        let mut i: usize = 0;
        while i < store.len()
            invariant
                lawful_eq::<K>(),
                store@ == old(self).store@,
                i <= store@.len(),
                forall|j: int| 0 <= j < i ==> store@[j].0 != k,
            decreases store@.len() - i,
        {
            proof {
                lemma_lawful_eq::<K>();
            }
            if store[i].0.eq(&k) {
                proof {
                    let wi = i as int;
                    assert(0 <= wi < old(self).pairs().len() && old(self).pairs()[wi].0 == k
                        && store@[wi].1 == old(self).pairs()[wi].1 && forall|j: int|
                        0 <= j < wi ==> old(self).pairs()[j].0 != k);
                }
                return Some(&store[i].1);
            }
            i = i + 1;
        }
        None
    }
}

} // verus!
