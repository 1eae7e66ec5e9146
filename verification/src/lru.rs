//! The recency cache: a least-recently-used eviction policy written
//! against a minimal storage capability, so that the same policy runs
//! unmodified over an array-backed store or a linked list.

use vstd::prelude::*;

verus! {

use core::marker::PhantomData;
use crate::order::lawful_eq;
use crate::order::lemma_lawful_eq;
use crate::queue::QueueCache;

/// The minimal operation set a container must provide to serve as
/// cache storage: existence check, indexed read, indexed insert,
/// indexed remove and tail pop. Every operation is specified against
/// the container's abstract `contents` sequence; `inv` is whatever
/// well-formedness the implementation maintains.
///
/// Out-of-range positions are ordinary, expected outcomes: `remove`
/// and `index` fail (return nothing) past the end, `insert` treats the
/// length itself as the valid append position and fails beyond it, and
/// `pop` fails on an empty container. No operation panics.
pub trait Cache<T: PartialEq>: Sized {
    /// The stored elements in order.
    spec fn contents(&self) -> Seq<T>;

    /// The implementation's well-formedness invariant.
    spec fn inv(&self) -> bool;

    /// An empty container.
    fn new() -> (r: Self)
        ensures
            r.inv(),
            r.contents() == Seq::<T>::empty(),
    ;

    /// Whether some stored element equals `*n` (value equality).
    fn contains(&mut self, n: &T) -> (r: bool)
        requires
            lawful_eq::<T>(),
            old(self).inv(),
        ensures
            *final(self) == *old(self),
            r == old(self).contents().contains(*n),
    ;

    /// Removes and returns the element at position `i`, shifting the
    /// rest forward; fails when `i` is out of range.
    fn remove(&mut self, i: usize) -> (r: Option<T>)
        requires
            old(self).inv(),
        ensures
            final(self).inv(),
            i < old(self).contents().len() ==> {
                &&& r == Some(old(self).contents()[i as int])
                &&& final(self).contents() == old(self).contents().remove(i as int)
            },
            i >= old(self).contents().len() ==> r == None::<T> && *final(self) == *old(self),
    ;

    /// Inserts `n` at position `i`, shifting the rest back; `i` equal
    /// to the length appends, anything larger is a no-op.
    fn insert(&mut self, i: usize, n: T)
        requires
            old(self).inv(),
            old(self).contents().len() < usize::MAX,
        ensures
            final(self).inv(),
            i <= old(self).contents().len() ==> final(self).contents() == old(
                self,
            ).contents().insert(i as int, n),
            i > old(self).contents().len() ==> *final(self) == *old(self),
    ;

    /// Removes and returns the last element; fails when empty.
    fn pop(&mut self) -> (r: Option<T>)
        requires
            old(self).inv(),
        ensures
            final(self).inv(),
            old(self).contents().len() > 0 ==> {
                &&& r == Some(old(self).contents().last())
                &&& final(self).contents() == old(self).contents().drop_last()
            },
            old(self).contents().len() == 0 ==> r == None::<T> && *final(self) == *old(self),
    ;

    /// Read-only access at position `i`; fails when `i` is out of
    /// range.
    fn index(&self, i: usize) -> (r: Option<&T>)
        requires
            self.inv(),
        ensures
            i < self.contents().len() ==> (r matches Some(v) && *v == self.contents()[i as int]),
            i >= self.contents().len() ==> r is None,
    ;
}

/// The array backend: a thin adapter exposing the storage capability
/// over a contiguous, order-preserving vector.
#[derive(Clone, Debug)]
pub struct List<T> {
    inner: Vec<T>,
}

impl<T: PartialEq> Cache<T> for List<T> {
    closed spec fn contents(&self) -> Seq<T> {
        self.inner@
    }

    closed spec fn inv(&self) -> bool {
        true
    }

    fn new() -> (r: Self) {
        List { inner: Vec::new() }
    }

    fn contains(&mut self, n: &T) -> (r: bool) {
        proof {
            lemma_lawful_eq::<T>();
        }
        let inner = &self.inner;
        let mut i: usize = 0;
        while i < inner.len()
            invariant
                lawful_eq::<T>(),
                inner@ == old(self).inner@,
                i <= inner@.len(),
                forall|j: int| 0 <= j < i ==> inner@[j] != *n,
            decreases inner@.len() - i,
        {
            proof {
                lemma_lawful_eq::<T>();
            }
            if inner[i].eq(n) {
                assert(inner@.contains(*n));
                return true;
            }
            i = i + 1;
        }
        proof {
            if inner@.contains(*n) {
                let j = choose|j: int| 0 <= j < inner@.len() && inner@[j] == *n;
                assert(false);
            }
        }
        false
    }

    fn remove(&mut self, i: usize) -> (r: Option<T>) {
        if i < self.inner.len() {
            Some(self.inner.remove(i))
        } else {
            None
        }
    }

    fn insert(&mut self, i: usize, n: T) {
        if i <= self.inner.len() {
            self.inner.insert(i, n);
        }
    }

    fn pop(&mut self) -> (r: Option<T>) {
        if self.inner.len() == 0 {
            None
        } else {
            self.inner.pop()
        }
    }

    fn index(&self, i: usize) -> (r: Option<&T>) {
        if i < self.inner.len() {
            Some(&self.inner[i])
        } else {
            None
        }
    }
}

impl<T: PartialEq> QueueCache<T> for List<T> {
    closed spec fn contents(&self) -> Seq<T> {
        self.inner@
    }

    closed spec fn inv(&self) -> bool {
        true
    }

    fn new() -> (r: Self) {
        List { inner: Vec::new() }
    }

    fn enqueue(&mut self, n: T) {
        self.inner.push(n);
    }

    fn dequeue(&mut self) -> (r: Option<T>) {
        if self.inner.len() == 0 {
            None
        } else {
            let r = self.inner.remove(0);
            proof {
                assert(old(self).inner@.remove(0) =~= old(self).inner@.drop_first());
            }
            Some(r)
        }
    }
}

impl<T> List<T> {
    /// The stored elements in order (the same sequence the capability
    /// traits expose).
    pub closed spec fn elements(&self) -> Seq<T> {
        self.inner@
    }

    /// Builds a list holding the elements of `v` in order.
    pub fn from_vec(v: Vec<T>) -> (r: Self)
        ensures
            r.elements() == v@,
    {
        List { inner: v }
    }

    /// Hands the elements back as a vector, in order.
    pub fn to_vec(self) -> (r: Vec<T>)
        ensures
            r@ == self.elements(),
    {
        self.inner
    }
}

/// What one `lookup` does to the cached sequence `c` under capacity
/// `cap`: a hit moves the (last) occurrence of `x` to the front; a
/// miss prepends `x`, evicting the last element when `c` is full.
pub open spec fn lookup_spec<T>(c: Seq<T>, cap: int, x: T) -> Seq<T> {
    if c.contains(x) {
        seq![x] + c.remove(c.index_of_last(x).unwrap())
    } else if c.len() < cap {
        seq![x] + c
    } else {
        seq![x] + c.drop_last()
    }
}

/// Capacity bound: a lookup never grows the cache past its capacity,
/// so a cache that starts within capacity stays within capacity for
/// any sequence of lookups.
pub proof fn lemma_lookup_capacity<T>(c: Seq<T>, cap: int, x: T)
    requires
        c.len() <= cap,
        1 <= cap,
    ensures
        lookup_spec(c, cap, x).len() <= cap,
{
    if c.contains(x) {
        c.index_of_last_ensures(x);
    }
}

/// Recency ordering: after any lookup the front of the cache holds the
/// element just looked up.
pub proof fn lemma_lookup_recency<T>(c: Seq<T>, cap: int, x: T)
    ensures
        lookup_spec(c, cap, x).len() >= 1,
        lookup_spec(c, cap, x)[0] == x,
{
}

/// Eviction correctness: a miss against a full cache drops exactly the
/// element at the last position; if that element occurred nowhere else
/// and is not the new element, it is no longer present at all.
pub proof fn lemma_lookup_eviction<T>(c: Seq<T>, cap: int, x: T)
    requires
        c.len() == cap,
        1 <= cap,
        !c.contains(x),
    ensures
        lookup_spec(c, cap, x) == seq![x] + c.drop_last(),
        x != c.last() && !c.drop_last().contains(c.last()) ==> !lookup_spec(c, cap, x).contains(
            c.last(),
        ),
{
    let r = lookup_spec(c, cap, x);
    if x != c.last() && !c.drop_last().contains(c.last()) {
        if r.contains(c.last()) {
            let i = choose|i: int| 0 <= i < r.len() && r[i] == c.last();
            if i > 0 {
                assert(c.drop_last()[i - 1] == c.last());
            }
            assert(false);
        }
    }
}

/// The recency controller: a fixed-capacity cache of bare elements
/// whose only access is a mutating `lookup`, generic over any storage
/// backend that provides the `Cache` capability.
#[derive(Debug)]
pub struct Lru<C, T> {
    cache: C,
    size: usize,
    len: usize,
    mark: PhantomData<T>,
}

impl<C: Cache<T>, T: PartialEq> Lru<C, T> {
    /// The storage backend instance.
    pub closed spec fn backend(&self) -> C {
        self.cache
    }

    /// The cached elements, most recently used first.
    pub closed spec fn contents(&self) -> Seq<T> {
        self.cache.contents()
    }

    /// The capacity fixed at construction.
    pub closed spec fn capacity(&self) -> usize {
        self.size
    }

    /// The number of cached elements (the `len` field).
    pub closed spec fn count(&self) -> usize {
        self.len
    }

    /// The backend is well formed and holds exactly `count` elements,
    /// never more than the capacity; a cache can hold at least one
    /// element.
    pub open spec fn wf(&self) -> bool {
        &&& self.backend().inv()
        &&& self.contents().len() == self.count()
        &&& self.count() <= self.capacity()
        &&& 1 <= self.capacity()
    }

    /// An empty cache with capacity `n`.
    pub fn new(n: usize) -> (r: Self)
        requires
            n >= 1,
        ensures
            r.wf(),
            r.capacity() == n,
            r.contents() == Seq::<T>::empty(),
    {
        Lru { cache: C::new(), size: n, len: 0, mark: PhantomData }
    }

    /// A read-only view of the backend.
    pub fn cache(&self) -> (r: &C)
        ensures
            r.contents() == self.contents(),
            self.wf() ==> r.inv(),
    {
        &self.cache
    }

    /// Looks `x` up and reorders the cache so that `x` is the most
    /// recently used element.
    ///
    /// On a hit the stored occurrence (the last one, when duplicates
    /// compare equal) moves to position 0 and the relative order of
    /// everything else is unchanged; on a miss `x` is inserted at
    /// position 0, evicting the least recently used element when the
    /// cache is full.
    pub fn lookup(&mut self, x: T)
        requires
            old(self).wf(),
            lawful_eq::<T>(),
        ensures
            final(self).wf(),
            final(self).capacity() == old(self).capacity(),
            final(self).contents() == lookup_spec(
                old(self).contents(),
                old(self).capacity() as int,
                x,
            ),
            final(self).contents().len() >= 1 && final(self).contents()[0] == x,
    {
        proof {
            lemma_lawful_eq::<T>();
            lemma_lookup_recency(
                old(self).contents(),
                old(self).capacity() as int,
                x,
            );
        }
        let ghost c0 = self.cache.contents();
        if self.cache.contains(&x) {
            proof {
                c0.index_of_last_ensures(x);
            }
            let mut index: usize = 0;
            let mut i: usize = 0;
            while i < self.len
                invariant
                    lawful_eq::<T>(),
                    *self == *old(self),
                    old(self).wf(),
                    c0 == self.cache.contents(),
                    c0.contains(x),
                    c0.len() == self.len,
                    i <= self.len,
                    ({
                        let t = c0.take(i as int);
                        if t.contains(x) {
                            Some(index as int) == t.index_of_last(x)
                        } else {
                            index == 0
                        }
                    }),
                    index < self.len,
                decreases self.len - i,
            {
                proof {
                    lemma_lawful_eq::<T>();
                }
                let ghost t = c0.take(i as int);
                let ghost t2 = c0.take(i + 1);
                if let Some(c) = self.cache.index(i) {
                    if c.eq(&x) {
                        index = i;
                    }
                }
                proof {
                    t.index_of_last_ensures(x);
                    t2.index_of_last_ensures(x);
                    assert(t2 =~= t.push(c0[i as int]));
                    assert(forall|j: int| 0 <= j < t.len() ==> t[j] == t2[j]);
                    if c0[i as int] == x {
                        assert(t2[i as int] == x);
                        assert(t2.contains(x));
                        let k = t2.index_of_last(x).unwrap();
                        assert(k == i) by {
                            if k < i {
                                assert(t2[i as int] == x);
                                assert(false);
                            }
                        }
                    } else {
                        if t.contains(x) {
                            let j = choose|j: int| 0 <= j < t.len() && t[j] == x;
                            assert(t2[j] == x);
                            assert(t2.contains(x));
                            let k = t2.index_of_last(x).unwrap();
                            let k0 = t.index_of_last(x).unwrap();
                            assert(k != i);
                            assert(t[k] == x);
                            assert(k == k0) by {
                                if k < k0 {
                                    assert(t2[k0] == x);
                                    assert(false);
                                }
                                if k0 < k {
                                    assert(t[k] == x);
                                    assert(false);
                                }
                            }
                        } else {
                            if t2.contains(x) {
                                let j = choose|j: int| 0 <= j < t2.len() && t2[j] == x;
                                assert(j < t.len() ==> t.contains(x));
                                assert(false);
                            }
                        }
                    }
                }
                i = i + 1;
            }
            proof {
                assert(c0.take(self.len as int) =~= c0);
                c0.index_of_last_ensures(x);
            }
            self.cache.remove(index);
            self.cache.insert(0, x);
            proof {
                assert(self.cache.contents() =~= seq![x] + c0.remove(
                    c0.index_of_last(x).unwrap(),
                ));
            }
        } else {
            if self.len < self.size {
                self.len = self.len + 1;
            } else {
                self.cache.pop();
            }
            self.cache.insert(0, x);
            proof {
                if c0.len() < self.size {
                    assert(self.cache.contents() =~= seq![x] + c0);
                } else {
                    assert(self.cache.contents() =~= seq![x] + c0.drop_last());
                }
            }
        }
    }
}

} // verus!
