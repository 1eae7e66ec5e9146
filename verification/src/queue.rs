//! First-in first-out queues: a bounded queue generic over its storage
//! backend, and a fixed-size circular-array queue.

use vstd::prelude::*;

verus! {

use core::marker::PhantomData;

/// The storage capability a bounded queue needs: an empty constructor,
/// an enqueue at the back and a dequeue at the front.
pub trait QueueCache<T>: Sized {
    /// The stored elements, front of the queue first.
    spec fn contents(&self) -> Seq<T>;

    /// The implementation's well-formedness invariant.
    spec fn inv(&self) -> bool;

    /// An empty container.
    fn new() -> (r: Self)
        ensures
            r.inv(),
            r.contents() == Seq::<T>::empty(),
    ;

    /// Appends `n` at the back.
    fn enqueue(&mut self, n: T)
        requires
            old(self).inv(),
            old(self).contents().len() < usize::MAX,
        ensures
            final(self).inv(),
            final(self).contents() == old(self).contents().push(n),
    ;

    /// Removes and returns the front element; fails when empty.
    fn dequeue(&mut self) -> (r: Option<T>)
        requires
            old(self).inv(),
        ensures
            final(self).inv(),
            old(self).contents().len() > 0 ==> {
                &&& r == Some(old(self).contents()[0])
                &&& final(self).contents() == old(self).contents().drop_first()
            },
            old(self).contents().len() == 0 ==> r == None::<T> && *final(self) == *old(self),
    ;
}

/// A bounded queue over any `QueueCache` backend.
///
/// `len` counts the enqueues that were accepted and is never
/// decremented: dequeuing does not give capacity back, so at most
/// `size` elements can ever be enqueued over the queue's lifetime.
pub struct Queue<R, T> {
    size: usize,
    len: usize,
    cache: R,
    mark: PhantomData<T>,
}

impl<R: QueueCache<T>, T> Queue<R, T> {
    /// The storage backend instance.
    pub closed spec fn backend(&self) -> R {
        self.cache
    }

    /// The queued elements, front first.
    pub closed spec fn contents(&self) -> Seq<T> {
        self.cache.contents()
    }

    /// The capacity fixed at construction.
    pub closed spec fn capacity(&self) -> usize {
        self.size
    }

    /// The number of accepted enqueues (the `len` field).
    pub closed spec fn count(&self) -> usize {
        self.len
    }

    /// The backend is well formed and never holds more elements than
    /// enqueues were accepted.
    pub open spec fn wf(&self) -> bool {
        &&& self.backend().inv()
        &&& self.contents().len() <= self.count()
        &&& self.count() <= self.capacity()
    }

    /// An empty queue with capacity `n`.
    pub fn new(n: usize) -> (r: Self)
        ensures
            r.wf(),
            r.capacity() == n,
            r.count() == 0,
            r.contents() == Seq::<T>::empty(),
    {
        Queue { len: 0, size: n, cache: R::new(), mark: PhantomData }
    }

    /// Enqueues `n` at the back; returns whether the queue accepted it.
    pub fn enqueue(&mut self, n: T) -> (r: bool)
        requires
            old(self).wf(),
        ensures
            final(self).wf(),
            final(self).capacity() == old(self).capacity(),
            old(self).count() < old(self).capacity() ==> {
                &&& r == true
                &&& final(self).contents() == old(self).contents().push(n)
                &&& final(self).count() == old(self).count() + 1
            },
            old(self).count() == old(self).capacity() ==> r == false && *final(self) == *old(self),
    {
        if self.len == self.size {
            false
        } else {
            self.cache.enqueue(n);
            self.len = self.len + 1;
            true
        }
    }

    /// Removes and returns the front element; fails when the backend
    /// is empty.
    pub fn dequeue(&mut self) -> (r: Option<T>)
        requires
            old(self).wf(),
        ensures
            final(self).wf(),
            final(self).capacity() == old(self).capacity(),
            final(self).count() == old(self).count(),
            old(self).contents().len() > 0 ==> {
                &&& r == Some(old(self).contents()[0])
                &&& final(self).contents() == old(self).contents().drop_first()
            },
            old(self).contents().len() == 0 ==> r == None::<T> && *final(self) == *old(self),
    {
        self.cache.dequeue()
    }
}

/// A queue over a fixed array of ten slots used as a circular buffer;
/// one slot is always kept free, so it holds at most nine elements.
#[derive(Debug)]
pub struct ArrayQueue<T> {
    tail: usize,
    head: usize,
    cache: Vec<T>,
    size: usize,
}

impl<T: Default + Copy> ArrayQueue<T> {
    /// The queued elements, front first: the slots from `head` up to
    /// (but not including) `tail`, wrapping around the end.
    pub closed spec fn contents(&self) -> Seq<T> {
        if self.head <= self.tail {
            self.cache@.subrange(self.head as int, self.tail as int)
        } else {
            self.cache@.subrange(self.head as int, 10) + self.cache@.subrange(0, self.tail as int)
        }
    }

    /// Ten slots, with both cursors inside the buffer.
    pub open spec fn wf(&self) -> bool {
        &&& self.size() == 10
        &&& self.slots() == 10
        &&& self.head_at() < 10
        &&& self.tail_at() < 10
    }

    /// The configured buffer size (the `size` field).
    pub closed spec fn size(&self) -> usize {
        self.size
    }

    /// The number of allocated slots.
    pub closed spec fn slots(&self) -> int {
        self.cache@.len() as int
    }

    /// The read cursor.
    pub closed spec fn head_at(&self) -> usize {
        self.head
    }

    /// The write cursor.
    pub closed spec fn tail_at(&self) -> usize {
        self.tail
    }

    /// An empty queue of ten default-filled slots.
    pub fn new() -> (r: Self)
        ensures
            r.wf(),
            r.contents() == Seq::<T>::empty(),
    {
        let d = T::default();
        let mut v: Vec<T> = Vec::new();
        let mut i: usize = 0;
        while i < 10
            invariant
                v@.len() == i,
                i <= 10,
            decreases 10 - i,
        {
            v.push(d);
            i = i + 1;
        }
        let r = ArrayQueue { tail: 0, head: 0, cache: v, size: 10 };
        proof {
            assert(r.contents() =~= Seq::<T>::empty());
        }
        r
    }

    /// Enqueues `n`; fails when only one free slot is left (the queue
    /// already holds nine elements).
    pub fn enqueue(&mut self, n: T) -> (r: bool)
        requires
            old(self).wf(),
        ensures
            final(self).wf(),
            old(self).contents().len() < 9 ==> {
                &&& r == true
                &&& final(self).contents() == old(self).contents().push(n)
            },
            old(self).contents().len() == 9 ==> r == false && *final(self) == *old(self),
    {
        if (self.tail + 1) % self.size == self.head {
            proof {
                assert(old(self).contents().len() == 9);
            }
            false
        } else {
            self.cache[self.tail] = n;
            self.tail = (self.tail + 1) % self.size;
            proof {
                assert(self.contents() =~= old(self).contents().push(n));
            }
            true
        }
    }

    /// Removes and returns the front element; fails when empty.
    pub fn dequeue(&mut self) -> (r: Option<T>)
        requires
            old(self).wf(),
        ensures
            final(self).wf(),
            old(self).contents().len() > 0 ==> {
                &&& r == Some(old(self).contents()[0])
                &&& final(self).contents() == old(self).contents().drop_first()
            },
            old(self).contents().len() == 0 ==> r == None::<T> && *final(self) == *old(self),
    {
        if self.head == self.tail {
            None
        } else {
            let n = self.cache[self.head];
            self.head = (self.head + 1) % self.size;
            proof {
                assert(self.contents() =~= old(self).contents().drop_first());
            }
            Some(n)
        }
    }
}

} // verus!
